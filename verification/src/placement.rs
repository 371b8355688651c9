//! How a live subtree that matches a snapshot sits in the pre-order of the
//! tree: the node for the address `a` is the `a`-th node that the walk meets.

use crate::mirror::{forest_mirrors_in, kept, lemma_forest_mirrors_at, mirrors_in, same_on};
use crate::node::{child_size, forest_size, ChildView};
use crate::preorder::{lemma_forest_block, lemma_forest_step, lemma_root_has_no_inner_parent};
use crate::tree::{forest_order, lemma_only_index, node_ok, place, preorder, stored, tree_ok, under};
use crate::tree::LiveView;
use vstd::prelude::*;

verus! {

/// The nodes of `order` are all different and all below `base`.
pub open spec fn seating(order: Seq<usize>, base: int) -> bool {
    &&& forall|i: int| 0 <= i < order.len() ==> (#[trigger] order[i]) < base
    &&& forall|i: int, j: int|
        0 <= i < order.len() && 0 <= j < order.len() && i != j ==> (#[trigger] order[i]) != (
        #[trigger] order[j])
}

/// `y` is the node at one of the addresses from `lo` up to `hi`.
pub open spec fn at_place(order: Seq<usize>, lo: int, hi: int, y: int) -> bool {
    exists|i: int| lo <= i < hi && 0 <= i < order.len() && #[trigger] order[i] == y
}

/// The nodes at the addresses from `lo` up to `hi`, and the nodes with the
/// numbers from `flo` up to `fhi`.
pub open spec fn span(order: Seq<usize>, lo: int, hi: int, flo: int, fhi: int) -> Set<int> {
    Set::new(|y: int| at_place(order, lo, hi, y) || flo <= y < fhi)
}

/// The nodes of the children of an element at address `a`: each child stands
/// after the subtrees of the children before it.
pub open spec fn seats(order: Seq<usize>, a: int, cs: Seq<ChildView>) -> Seq<usize> {
    Seq::new(cs.len(), |j: int| order[a + 1 + forest_size(cs, j as nat)])
}

/// The live nodes at the addresses from `a` on are those of the child `c`.
pub open spec fn placed(e: Seq<LiveView>, order: Seq<usize>, a: int, c: ChildView) -> bool
    decreases c, 0nat,
{
    &&& 0 <= a
    &&& a + child_size(c) <= order.len()
    &&& order[a] < e.len()
    &&& match c {
        ChildView::Text(s) => e[order[a] as int].text == Some(s) && e[order[a] as int].children.len()
            == 0,
        ChildView::Node(n) => {
            &&& e[order[a] as int].text is None
            &&& e[order[a] as int].tag == n.tag
            &&& e[order[a] as int].attributes == stored(n.attributes)
            &&& e[order[a] as int].children == seats(order, a, n.children)
            &&& forest_placed(e, order, a + 1, n.children, n.children.len())
        },
    }
}

/// The live nodes at the addresses from `first` on are those of the first `k`
/// children of `cs`, subtree after subtree.
pub open spec fn forest_placed(
    e: Seq<LiveView>,
    order: Seq<usize>,
    first: int,
    cs: Seq<ChildView>,
    k: nat,
) -> bool
    decreases cs, k,
{
    if k == 0 || k > cs.len() {
        true
    } else {
        forest_placed(e, order, first, cs, (k - 1) as nat) && placed(
            e,
            order,
            first + forest_size(cs, (k - 1) as nat),
            cs[k - 1],
        )
    }
}

/// A subtree that sits in one arena sits in every arena that keeps its nodes.
pub proof fn lemma_placed_frame(
    e: Seq<LiveView>,
    f: Seq<LiveView>,
    order: Seq<usize>,
    a: int,
    c: ChildView,
)
    requires
        placed(e, order, a, c),
        e.len() <= f.len(),
        same_on(e, f, span(order, a, a + child_size(c), 0, 0)),
    ensures
        placed(f, order, a, c),
    decreases c, 0nat,
{
    assert(at_place(order, a, a + child_size(c), order[a] as int));
    assert(span(order, a, a + child_size(c), 0, 0).contains(order[a] as int));
    assert(kept(e, f, order[a] as int));
    match c {
        ChildView::Text(_) => {},
        ChildView::Node(n) => {
            assert(span(order, a + 1, a + 1 + forest_size(n.children, n.children.len()), 0, 0).subset_of(
                span(order, a, a + child_size(c), 0, 0),
            ));
            lemma_forest_placed_frame(e, f, order, a + 1, n.children, n.children.len());
        },
    }
}

/// `lemma_placed_frame` for the first `k` children of a list.
pub proof fn lemma_forest_placed_frame(
    e: Seq<LiveView>,
    f: Seq<LiveView>,
    order: Seq<usize>,
    first: int,
    cs: Seq<ChildView>,
    k: nat,
)
    requires
        k <= cs.len(),
        forest_placed(e, order, first, cs, k),
        e.len() <= f.len(),
        same_on(e, f, span(order, first, first + forest_size(cs, k), 0, 0)),
    ensures
        forest_placed(f, order, first, cs, k),
    decreases cs, k,
{
    if k > 0 {
        let whole = span(order, first, first + forest_size(cs, k), 0, 0);
        let at = first + forest_size(cs, (k - 1) as nat);
        assert(span(order, first, at, 0, 0).subset_of(whole));
        assert(span(order, at, at + child_size(cs[k - 1]), 0, 0).subset_of(whole));
        lemma_forest_placed_frame(e, f, order, first, cs, (k - 1) as nat);
        lemma_placed_frame(e, f, order, at, cs[k - 1]);
    }
}

/// A forest that sits in the arena sits there up to any of its children.
pub proof fn lemma_forest_placed_prefix(
    e: Seq<LiveView>,
    order: Seq<usize>,
    first: int,
    cs: Seq<ChildView>,
    k: nat,
    j: nat,
)
    requires
        forest_placed(e, order, first, cs, k),
        j <= k <= cs.len(),
    ensures
        forest_placed(e, order, first, cs, j),
    decreases k,
{
    if j < k {
        lemma_forest_placed_prefix(e, order, first, cs, (k - 1) as nat, j);
    }
}

/// Every node of the pre-order of a subtree lies under the subtree's top, at
/// the place that its position names.
pub proof fn lemma_preorder_places(e: Seq<LiveView>, root: usize, id: usize)
    requires
        tree_ok(e),
        under(e, root, id),
    ensures
        forall|t: int|
            0 <= t < preorder(e, id).len() ==> under(e, root, #[trigger] preorder(e, id)[t])
                && place(e, root, preorder(e, id)[t]) == place(e, root, id) + t,
    decreases e.len() - id, e[id as int].children.len() + 1,
{
    lemma_forest_places(e, root, id, e[id as int].children.len());
    let all = preorder(e, id);
    let below = forest_order(e, id, e[id as int].children.len());
    assert forall|t: int| 0 <= t < all.len() implies under(e, root, #[trigger] all[t]) && place(
        e,
        root,
        all[t],
    ) == place(e, root, id) + t by {
        if t > 0 {
            assert(all[t] == below[t - 1]);
        }
    }
}

/// `lemma_preorder_places` for the subtrees of the first `k` children.
pub proof fn lemma_forest_places(e: Seq<LiveView>, root: usize, id: usize, k: nat)
    requires
        tree_ok(e),
        under(e, root, id),
        k <= e[id as int].children.len(),
    ensures
        forall|s: int|
            0 <= s < forest_order(e, id, k).len() ==> under(
                e,
                root,
                #[trigger] forest_order(e, id, k)[s],
            ) && place(e, root, forest_order(e, id, k)[s]) == place(e, root, id) + 1 + s,
    decreases e.len() - id, k,
{
    if k > 0 {
        lemma_forest_places(e, root, id, (k - 1) as nat);
        lemma_forest_step(e, id, (k - 1) as nat);
        assert(node_ok(e, id as int));
        let c = e[id as int].children[k - 1];
        assert(e[c as int].parent == Some(id));
        lemma_root_has_no_inner_parent(e, root, id, c);
        lemma_only_index(e[id as int].children, c, k - 1);
        lemma_preorder_places(e, root, c);
        let before = forest_order(e, id, (k - 1) as nat);
        let sub = preorder(e, c);
        let all = forest_order(e, id, k);
        assert forall|s: int| 0 <= s < all.len() implies under(e, root, #[trigger] all[s]) && place(
            e,
            root,
            all[s],
        ) == place(e, root, id) + 1 + s by {
            if s < before.len() {
                assert(all[s] == before[s]);
            } else {
                assert(all[s] == sub[s - before.len()]);
            }
        }
    }
}

/// The nodes that a walk meets are all different, and all nodes of the arena.
pub proof fn lemma_preorder_seating(e: Seq<LiveView>, id: usize)
    requires
        tree_ok(e),
        id < e.len(),
    ensures
        seating(preorder(e, id), e.len() as int),
{
    let order = preorder(e, id);
    assert(under(e, id, id));
    lemma_preorder_places(e, id, id);
    assert forall|i: int, j: int|
        0 <= i < order.len() && 0 <= j < order.len() && i != j implies (#[trigger] order[i]) != (
    #[trigger] order[j]) by {
        assert(place(e, id, order[i]) == i);
        assert(place(e, id, order[j]) == j);
    }
    assert forall|i: int| 0 <= i < order.len() implies (#[trigger] order[i]) < e.len() by {
        assert(under(e, id, order[i]));
    }
}

/// A live subtree that matches a child sits in the pre-order of any tree that
/// holds the subtree's own pre-order from `a` on, and has as many nodes as
/// the child stands for.
pub proof fn lemma_mirrors_placed(
    e: Seq<LiveView>,
    order: Seq<usize>,
    a: int,
    id: usize,
    c: ChildView,
    s: Set<int>,
)
    requires
        tree_ok(e),
        mirrors_in(e, id, c, s),
        0 <= a,
        a + preorder(e, id).len() <= order.len(),
        order.subrange(a, a + preorder(e, id).len()) == preorder(e, id),
    ensures
        preorder(e, id).len() == child_size(c),
        placed(e, order, a, c),
        order[a] == id,
    decreases c, 0nat,
{
    let sub = preorder(e, id);
    assert(node_ok(e, id as int));
    assert(sub[0] == id);
    assert(order.subrange(a, a + sub.len())[0] == order[a]);
    match c {
        ChildView::Text(_) => {},
        ChildView::Node(n) => {
            lemma_forest_mirrors_placed(e, order, a, id, n.children, n.children.len(), s);
            assert(e[id as int].children =~= seats(order, a, n.children));
        },
    }
}

/// `lemma_mirrors_placed` for the first `k` children of the element `id`.
pub proof fn lemma_forest_mirrors_placed(
    e: Seq<LiveView>,
    order: Seq<usize>,
    a: int,
    id: usize,
    cs: Seq<ChildView>,
    k: nat,
    s: Set<int>,
)
    requires
        tree_ok(e),
        id < e.len(),
        e[id as int].children.len() == cs.len(),
        forest_mirrors_in(e, e[id as int].children, cs, cs.len(), s),
        k <= cs.len(),
        0 <= a,
        a + preorder(e, id).len() <= order.len(),
        order.subrange(a, a + preorder(e, id).len()) == preorder(e, id),
    ensures
        forest_order(e, id, k).len() == forest_size(cs, k),
        forest_placed(e, order, a + 1, cs, k),
        forall|j: int|
            0 <= j < k ==> order[a + 1 + forest_size(cs, j as nat)] == (
            #[trigger] e[id as int].children[j]),
    decreases cs, k,
{
    if k > 0 {
        lemma_forest_mirrors_placed(e, order, a, id, cs, (k - 1) as nat, s);
        lemma_forest_step(e, id, (k - 1) as nat);
        lemma_forest_block(e, id, (k - 1) as nat);
        lemma_forest_mirrors_at(e, e[id as int].children, cs, cs.len(), k - 1, s);
        let all = preorder(e, id);
        let below = forest_order(e, id, e[id as int].children.len());
        let c = e[id as int].children[k - 1];
        let sub = preorder(e, c);
        let start = forest_size(cs, (k - 1) as nat) as int;
        assert(all == seq![id] + below);
        assert(below.subrange(start, start + sub.len()) == sub);
        assert(order.subrange(a + 1 + start, a + 1 + start + sub.len()) =~= order.subrange(
            a,
            a + all.len(),
        ).subrange(1 + start, 1 + start + sub.len()));
        assert(all.subrange(1 + start, 1 + start + sub.len()) =~= below.subrange(
            start,
            start + sub.len(),
        ));
        lemma_mirrors_placed(e, order, a + 1 + start, c, cs[k - 1], s);
    }
}

} // verus!
