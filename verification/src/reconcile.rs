//! Applying the diff of two snapshots to a live tree that matches the first
//! gives a live tree that matches the second.

use crate::apply::{applied, patched, released_last, run, ApplyError};
use crate::attribute::distinct_keys;
use crate::diff::{addressed, arity_edits, attribute_edits, child_address, child_diff};
use crate::diff::{children_diff, node_diff};
use crate::diff::{shared_len, OperationView, PatchView};
use crate::diff::lemma_forest_split;
use crate::diff_proofs::lemma_diff_addresses_ascend;
use crate::layout::{forest_laid, fresh_slots, lemma_children_made, lemma_laid_frame};
use crate::layout::{lemma_materialized, same_between};
use crate::mirror::{block, forest_mirrors_in, kept, lemma_forest_laid_at, lemma_forest_mirrors_extend};
use crate::mirror::{lemma_forest_mirrors_frame, lemma_forest_mirrors_ids, lemma_forest_mirrors_widen};
use crate::mirror::{lemma_laid_mirrors, lemma_mirrors_widen, mirrors, mirrors_in, same_on};
use crate::node::lemma_forest_size_grows;
use crate::node::{child_size, forest_size, size, ChildView, NodeView};
use crate::placement::{at_place, forest_placed, lemma_forest_placed_frame};
use crate::placement::{lemma_forest_placed_prefix, lemma_mirrors_placed, lemma_placed_frame};
use crate::placement::{lemma_preorder_seating, placed, seating, seats, span};
use crate::replay::{bind, bound_to, kinds_agree, lemma_attribute_edits_reconcile};
use crate::replay::{lemma_bind_concat, lemma_ran_concat, lemma_released_last};
use crate::replay::{lemma_resolved_is_bind, lemma_run_attribute_edits, ran};
use crate::root::{materialized, with_children_made};
use crate::tree::{lemma_only_index, lemma_replace_keeps_tree, lemma_same_links_keep_tree};
use crate::tree::{node_ok, preorder, stored, tree_ok, with_child_replaced, with_text_content};
use crate::tree::LiveView;
use vstd::prelude::*;

verus! {

/// The pairs on which a diff, applied, gives the new snapshot. Wherever two
/// elements are compared, neither holds an attribute name twice and no name
/// changes its kind; and their children can be reconciled pair by pair.
pub open spec fn reconcilable(old: NodeView, new: NodeView) -> bool
    decreases old, 0nat,
{
    &&& old.tag == new.tag
    &&& distinct_keys(old.attributes)
    &&& distinct_keys(new.attributes)
    &&& kinds_agree(old.attributes, new.attributes)
    &&& children_reconcilable(
        old.children,
        new.children,
        shared_len(old.children.len(), new.children.len()),
    )
}

/// The first `k` pairs of children can be reconciled.
pub open spec fn children_reconcilable(old: Seq<ChildView>, new: Seq<ChildView>, k: nat) -> bool
    decreases old, k,
{
    if k == 0 || k > old.len() || k > new.len() {
        true
    } else {
        children_reconcilable(old, new, (k - 1) as nat) && child_reconcilable(
            old[k - 1],
            new[k - 1],
        )
    }
}

/// A pair of children can be reconciled: two texts; two elements of one tag
/// that can be reconciled; or an old child that an element replaces. An
/// element that a text replaces cannot: the patch sets the text of the
/// element, which keeps its tag.
pub open spec fn child_reconcilable(old: ChildView, new: ChildView) -> bool
    decreases old, 1nat,
{
    match (old, new) {
        (ChildView::Node(o), ChildView::Node(n)) => o.tag != n.tag || reconcilable(o, n),
        (ChildView::Text(_), ChildView::Text(_)) => true,
        (ChildView::Text(_), ChildView::Node(_)) => true,
        (ChildView::Node(_), ChildView::Text(_)) => false,
    }
}

/// The node `p` and the nodes at the addresses from `lo` up to `hi`.
pub open spec fn touched(order: Seq<usize>, p: int, lo: int, hi: int) -> Set<int> {
    Set::new(|y: int| y == p || at_place(order, lo, hi, y))
}

/// Every node that was there is kept, but for those of `s`.
pub open spec fn kept_but(e: Seq<LiveView>, f: Seq<LiveView>, s: Set<int>) -> bool {
    forall|y: int|
        0 <= y < e.len() && !s.contains(y) ==> (#[trigger] f[y]).text == e[y].text && f[y].tag
            == e[y].tag && f[y].attributes == e[y].attributes && f[y].children == e[y].children
}

/// What the patches for one pair of children leave: the child in its slot
/// under `p` matches the new child, and nothing else of the tree changed.
pub open spec fn child_done(
    e: Seq<LiveView>,
    f: Seq<LiveView>,
    order: Seq<usize>,
    p: int,
    j: int,
    a: int,
    oc: ChildView,
    nc: ChildView,
) -> bool {
    &&& tree_ok(f)
    &&& e.len() <= f.len() <= e.len() + child_size(nc)
    &&& f[p].children.len() == e[p].children.len()
    &&& forall|i: int|
        0 <= i < e[p].children.len() && i != j ==> (#[trigger] f[p].children[i]) == e[p].children[i]
    &&& f[p].text == e[p].text
    &&& f[p].tag == e[p].tag
    &&& f[p].attributes == e[p].attributes
    &&& mirrors_in(
        f,
        f[p].children[j],
        nc,
        span(order, a, a + child_size(oc), e.len() as int, f.len() as int),
    )
    &&& kept_but(e, f, touched(order, p, a, a + child_size(oc)))
}

/// What the patches for the first `k` pairs of children of the element at
/// address `a` leave.
pub open spec fn children_done(
    e: Seq<LiveView>,
    f: Seq<LiveView>,
    order: Seq<usize>,
    a: int,
    olds: Seq<ChildView>,
    news: Seq<ChildView>,
    k: nat,
) -> bool {
    let p = order[a] as int;
    &&& tree_ok(f)
    &&& e.len() <= f.len() <= e.len() + forest_size(news, k)
    &&& f[p].children.len() == e[p].children.len()
    &&& forall|i: int|
        k <= i < e[p].children.len() ==> (#[trigger] f[p].children[i]) == e[p].children[i]
    &&& f[p].text == e[p].text
    &&& f[p].tag == e[p].tag
    &&& f[p].attributes == e[p].attributes
    &&& forest_mirrors_in(
        f,
        f[p].children,
        news,
        k,
        span(order, a + 1, a + 1 + forest_size(olds, k), e.len() as int, f.len() as int),
    )
    &&& kept_but(e, f, touched(order, p, a + 1, a + 1 + forest_size(olds, k)))
}

/// What the patches for the pair of elements at address `a` leave.
pub open spec fn node_done(
    e: Seq<LiveView>,
    f: Seq<LiveView>,
    order: Seq<usize>,
    a: int,
    o: NodeView,
    n: NodeView,
) -> bool {
    &&& tree_ok(f)
    &&& e.len() <= f.len() <= e.len() + size(n) - 1
    &&& mirrors_in(
        f,
        order[a],
        ChildView::Node(n),
        span(order, a, a + size(o), e.len() as int, f.len() as int),
    )
    &&& kept_but(e, f, touched(order, order[a] as int, a, a + size(o)))
}

/// A node at an address outside a range is none of the nodes at the
/// addresses of the range, nor the node at another address.
proof fn lemma_not_touched(order: Seq<usize>, base: int, ap: int, lo: int, hi: int, i: int)
    requires
        seating(order, base),
        0 <= ap < order.len(),
        0 <= i < order.len(),
        i != ap,
        !(lo <= i < hi),
    ensures
        !touched(order, order[ap] as int, lo, hi).contains(order[i] as int),
{
    if at_place(order, lo, hi, order[i] as int) {
        let w = choose|w: int| lo <= w < hi && 0 <= w < order.len() && #[trigger] order[w] == order[i];
        assert(order[w] != order[i]);
    }
}

/// A node made later is none of the nodes that the walk met.
proof fn lemma_fresh_not_touched(order: Seq<usize>, base: int, p: int, lo: int, hi: int, y: int)
    requires
        seating(order, base),
        p < base <= y,
    ensures
        !touched(order, p, lo, hi).contains(y),
{
    if at_place(order, lo, hi, y) {
        let w = choose|w: int| lo <= w < hi && 0 <= w < order.len() && #[trigger] order[w] == y;
        assert(order[w] < base);
    }
}

/// What is kept but for some nodes is kept at the addresses and numbers that
/// hold none of those nodes.
proof fn lemma_same_on_span(
    e: Seq<LiveView>,
    f: Seq<LiveView>,
    order: Seq<usize>,
    s: Set<int>,
    lo: int,
    hi: int,
    flo: int,
    fhi: int,
)
    requires
        kept_but(e, f, s),
        seating(order, e.len() as int),
        forall|i: int| lo <= i < hi && 0 <= i < order.len() ==> !s.contains(#[trigger] order[i] as int),
        forall|y: int| flo <= y < fhi ==> !(#[trigger] s.contains(y)),
        0 <= flo,
        fhi <= e.len(),
    ensures
        same_on(e, f, span(order, lo, hi, flo, fhi)),
{
    assert forall|y: int| #[trigger] span(order, lo, hi, flo, fhi).contains(y) implies kept(
        e,
        f,
        y,
    ) by {
        if at_place(order, lo, hi, y) {
            let w = choose|w: int| lo <= w < hi && 0 <= w < order.len() && #[trigger] order[w] == y;
            assert(!s.contains(order[w] as int));
        } else {
            assert(!s.contains(y));
        }
        assert(f[y].text == e[y].text);
    }
}

/// A single patch is executed by one step.
proof fn lemma_ran_one(e: Seq<LiveView>, x: int, op: OperationView)
    ensures
        ran(e, bound_to(seq![op], x)) == patched(e, x as usize, op),
        bound_to(seq![op], x).len() == 1,
{
    let ps = bound_to(seq![op], x);
    assert(ps[0] == PatchView { node: x, operation: op });
    assert(run(e, ps, 0) == (e, None::<ApplyError>));
}

/// The patches for one pair of children, executed on a tree in which the old
/// child sits at address `a` in slot `j` of the node at address `ap`, leave a
/// tree in which that slot matches the new child.
pub proof fn lemma_child_patches(
    e: Seq<LiveView>,
    order: Seq<usize>,
    a: int,
    oc: ChildView,
    nc: ChildView,
    ap: int,
    j: int,
)
    requires
        tree_ok(e),
        seating(order, e.len() as int),
        0 <= ap < a,
        e[order[ap] as int].text is None,
        0 <= j < e[order[ap] as int].children.len(),
        e[order[ap] as int].children[j] == order[a],
        placed(e, order, a, oc),
        child_reconcilable(oc, nc),
        e.len() + child_size(nc) <= usize::MAX,
    ensures
        ran(e, bind(child_diff(oc, nc, a), order)).1 is None,
        child_done(
            e,
            ran(e, bind(child_diff(oc, nc, a), order)).0,
            order,
            order[ap] as int,
            j,
            a,
            oc,
            nc,
        ),
    decreases oc, 1nat,
{
    let p = order[ap];
    let c = order[a] as int;
    let ps = bind(child_diff(oc, nc, a), order);
    let f = ran(e, ps).0;
    let hi = a + child_size(oc);
    assert(node_ok(e, p as int));
    assert(e[c].parent == Some(p));
    assert(at_place(order, a, hi, c));
    match (oc, nc) {
        (ChildView::Node(o), ChildView::Node(n)) => {
            if o.tag == n.tag {
                lemma_node_patches(e, order, a, o, n);
                assert(child_size(oc) == size(o));
                assert(child_size(nc) == size(n));
                lemma_not_touched(order, e.len() as int, a, a, hi, ap);
                assert(f[p as int].children == e[p as int].children);
                assert(f[p as int].children[j] == c as usize);
                assert(touched(order, c, a, hi).subset_of(touched(order, p as int, a, hi)));
            } else {
                assert(ps =~= bound_to(seq![OperationView::ReplaceNode(n)], c));
                lemma_replaced(e, order, a, oc, n, ap, j);
            }
        },
        (ChildView::Text(s), ChildView::Text(t)) => {
            if s != t {
                let op = OperationView::ReplaceText(t);
                assert(ps =~= bound_to(seq![op], c));
                lemma_ran_one(e, c, op);
                assert(f == with_text_content(e, c as usize, t));
                lemma_same_links_keep_tree(e, f);
            } else {
                assert(ps =~= Seq::<PatchView>::empty());
                assert(f == e);
            }
            assert(span(order, a, hi, e.len() as int, f.len() as int).contains(c));
            assert(touched(order, p as int, a, hi).contains(c));
            assert(f[p as int].children[j] == c as usize);
        },
        (ChildView::Text(_), ChildView::Node(n)) => {
            assert(ps =~= bound_to(seq![OperationView::ReplaceNode(n)], c));
            lemma_replaced(e, order, a, oc, n, ap, j);
        },
        (ChildView::Node(_), ChildView::Text(_)) => {},
    }
}

/// A patch that replaces an old child by a newly made element leaves that
/// element in the child's slot.
proof fn lemma_replaced(
    e: Seq<LiveView>,
    order: Seq<usize>,
    a: int,
    oc: ChildView,
    n: NodeView,
    ap: int,
    j: int,
)
    requires
        tree_ok(e),
        seating(order, e.len() as int),
        0 <= ap < a,
        e[order[ap] as int].text is None,
        0 <= j < e[order[ap] as int].children.len(),
        e[order[ap] as int].children[j] == order[a],
        placed(e, order, a, oc),
        e.len() + size(n) <= usize::MAX,
    ensures
        ({
            let op = OperationView::ReplaceNode(n);
            let out = ran(e, bound_to(seq![op], order[a] as int));
            out.1 is None && child_done(
                e,
                out.0,
                order,
                order[ap] as int,
                j,
                a,
                oc,
                ChildView::Node(n),
            )
        }),
{
    let p = order[ap];
    let c = order[a];
    let hi = a + child_size(oc);
    let op = OperationView::ReplaceNode(n);
    lemma_ran_one(e, c as int, op);
    assert(node_ok(e, p as int));
    assert(e[c as int].parent == Some(p));
    let m = materialized(e, n);
    lemma_materialized(e, n);
    let fresh = e.len() as usize;
    let f = with_child_replaced(m, p, fresh, c);
    assert(ran(e, bound_to(seq![op], c as int)).0 == f);
    assert(node_ok(m, p as int));
    lemma_replace_keeps_tree(m, p, fresh, c);
    lemma_only_index(m[p as int].children, c, j);
    assert(same_between(m, f, fresh as int, (fresh + size(n)) as int));
    lemma_laid_frame(m, f, fresh as int, ChildView::Node(n));
    lemma_laid_mirrors(f, fresh as int, ChildView::Node(n));
    assert(block(fresh as int, (fresh + size(n)) as int).subset_of(
        span(order, a, hi, e.len() as int, f.len() as int),
    ));
    lemma_mirrors_widen(
        f,
        fresh,
        ChildView::Node(n),
        block(fresh as int, (fresh + size(n)) as int),
        span(order, a, hi, e.len() as int, f.len() as int),
    );
    assert(at_place(order, a, hi, c as int));
    assert(kept_but(e, f, touched(order, p as int, a, hi))) by {
        assert forall|y: int|
            0 <= y < e.len() && !touched(order, p as int, a, hi).contains(y) implies (
        #[trigger] f[y]).text == e[y].text && f[y].tag == e[y].tag && f[y].attributes
            == e[y].attributes && f[y].children == e[y].children by {
            assert(m[y] == e[y]);
        }
    }
}

/// The patches for the first `k` pairs of children, executed on a tree in
/// which the old children sit under the node at address `a` one after the
/// other, leave a tree in which each of the first `k` slots matches the new
/// child.
pub proof fn lemma_children_patches(
    e: Seq<LiveView>,
    order: Seq<usize>,
    a: int,
    olds: Seq<ChildView>,
    news: Seq<ChildView>,
    k: nat,
)
    requires
        tree_ok(e),
        seating(order, e.len() as int),
        0 <= a,
        a + 1 + forest_size(olds, k) <= order.len(),
        e[order[a] as int].text is None,
        k <= olds.len(),
        k <= news.len(),
        k <= e[order[a] as int].children.len(),
        forall|j: int|
            0 <= j < k ==> (#[trigger] e[order[a] as int].children[j]) == order[a + 1 + forest_size(
                olds,
                j as nat,
            )],
        forest_placed(e, order, a + 1, olds, k),
        children_reconcilable(olds, news, k),
        e.len() + forest_size(news, k) <= usize::MAX,
    ensures
        ran(e, bind(children_diff(olds, news, k, a), order)).1 is None,
        children_done(
            e,
            ran(e, bind(children_diff(olds, news, k, a), order)).0,
            order,
            a,
            olds,
            news,
            k,
        ),
    decreases olds, k,
{
    let p = order[a] as int;
    if k == 0 {
        assert(bind(children_diff(olds, news, k, a), order) =~= Seq::<PatchView>::empty());
    } else {
        let before = children_diff(olds, news, (k - 1) as nat, a);
        assert(forest_size(news, k) == forest_size(news, (k - 1) as nat) + child_size(news[k - 1]));
        assert(forest_size(olds, k) == forest_size(olds, (k - 1) as nat) + child_size(olds[k - 1]));
        lemma_children_patches(e, order, a, olds, news, (k - 1) as nat);
        let g = ran(e, bind(before, order)).0;
        let at = child_address(olds, (k - 1) as nat, a);
        let lo = a + 1;
        let hi = a + 1 + forest_size(olds, k);
        let here = child_diff(olds[k - 1], news[k - 1], at);
        assert(placed(e, order, at, olds[k - 1]));
        assert(e[p].children[k - 1] == order[at]);
        let done = touched(order, p, lo, at);
        assert forall|i: int| at <= i < hi && 0 <= i < order.len() implies !done.contains(
            #[trigger] order[i] as int,
        ) by {
            lemma_not_touched(order, e.len() as int, a, lo, at, i);
        }
        lemma_same_on_span(e, g, order, done, at, hi, 0, 0);
        lemma_placed_frame(e, g, order, at, olds[k - 1]);
        lemma_child_patches(g, order, at, olds[k - 1], news[k - 1], a, k - 1);
        let f = ran(g, bind(here, order)).0;
        lemma_bind_concat(before, here, order);
        lemma_ran_concat(e, bind(before, order), bind(here, order));
        assert(ran(e, bind(children_diff(olds, news, k, a), order)).0 == f);

        let now = touched(order, p, at, hi);
        let earlier = span(order, lo, at, e.len() as int, g.len() as int);
        assert forall|i: int| lo <= i < at && 0 <= i < order.len() implies !now.contains(
            #[trigger] order[i] as int,
        ) by {
            lemma_not_touched(order, e.len() as int, a, at, hi, i);
        }
        assert forall|y: int| e.len() <= y < g.len() implies !(#[trigger] now.contains(y)) by {
            lemma_fresh_not_touched(order, e.len() as int, p, at, hi, y);
        }
        lemma_same_on_span(g, f, order, now, lo, at, e.len() as int, g.len() as int);
        lemma_forest_mirrors_frame(g, f, g[p].children, news, (k - 1) as nat, earlier);
        lemma_forest_mirrors_ids(f, g[p].children, f[p].children, news, (k - 1) as nat, earlier);
        let whole = span(order, lo, hi, e.len() as int, f.len() as int);
        assert(earlier.subset_of(whole));
        lemma_forest_mirrors_widen(f, f[p].children, news, (k - 1) as nat, earlier, whole);
        assert(span(order, at, hi, g.len() as int, f.len() as int).subset_of(whole));
        lemma_mirrors_widen(
            f,
            f[p].children[k - 1],
            news[k - 1],
            span(order, at, hi, g.len() as int, f.len() as int),
            whole,
        );
        assert(kept_but(e, f, touched(order, p, lo, hi))) by {
            assert forall|y: int|
                0 <= y < e.len() && !touched(order, p, lo, hi).contains(y) implies (
            #[trigger] f[y]).text == e[y].text && f[y].tag == e[y].tag && f[y].attributes
                == e[y].attributes && f[y].children == e[y].children by {
                assert(!done.contains(y));
                assert(!now.contains(y));
                assert(g[y].text == e[y].text);
            }
        }
    }
}

/// The nodes that the surplus children of `new` stand for.
pub open spec fn appended_size(olds: Seq<ChildView>, news: Seq<ChildView>) -> nat {
    if olds.len() < news.len() {
        let surplus = news.subrange(olds.len() as int, news.len() as int);
        forest_size(surplus, surplus.len())
    } else {
        0
    }
}

/// What an element's own patches leave: the attributes of `n` stored on it,
/// as many children as `n` has, with the first ones as they were and the
/// appended ones newly made, and every other node as it was.
pub open spec fn own_done(e: Seq<LiveView>, g: Seq<LiveView>, x: int, o: NodeView, n: NodeView)
    -> bool {
    let olds = o.children;
    let news = n.children;
    let shared = shared_len(olds.len(), news.len());
    &&& tree_ok(g)
    &&& g.len() == e.len() + appended_size(olds, news)
    &&& g[x].text is None
    &&& g[x].tag == e[x].tag
    &&& g[x].attributes == stored(n.attributes)
    &&& g[x].children.len() == news.len()
    &&& forall|j: int| 0 <= j < shared ==> (#[trigger] g[x].children[j]) == e[x].children[j]
    &&& olds.len() < news.len() ==> {
        let surplus = news.subrange(olds.len() as int, news.len() as int);
        &&& forest_laid(g, e.len() as int, surplus, surplus.len())
        &&& forall|j: int|
            shared <= j < news.len() ==> (#[trigger] g[x].children[j]) == e.len() + forest_size(
                surplus,
                (j - shared) as nat,
            )
    }
    &&& kept_but(e, g, block(x, x + 1))
}

/// The patches of an element itself, executed on a tree in which the old
/// element sits at address `a`: see [`own_done`].
pub proof fn lemma_own_patches(
    e: Seq<LiveView>,
    order: Seq<usize>,
    a: int,
    o: NodeView,
    n: NodeView,
)
    requires
        tree_ok(e),
        placed(e, order, a, ChildView::Node(o)),
        reconcilable(o, n),
        e.len() + size(n) <= usize::MAX,
    ensures
        ({
            let own = addressed(attribute_edits(o.attributes, n.attributes), a) + addressed(
                arity_edits(o.children, n.children),
                a,
            );
            let out = ran(e, bind(own, order));
            out.1 is None && own_done(e, out.0, order[a] as int, o, n)
        }),
{
    let x = order[a] as int;
    let olds = o.children;
    let news = n.children;
    let shared = shared_len(olds.len(), news.len());
    let edits = attribute_edits(o.attributes, n.attributes);
    let arity = arity_edits(olds, news);
    let pa = bind(addressed(edits, a), order);
    let pb = bind(addressed(arity, a), order);
    lemma_bind_concat(addressed(edits, a), addressed(arity, a), order);
    lemma_forest_split(news, shared);

    assert(pa =~= bound_to(edits, x));
    lemma_attribute_edits_reconcile(o.attributes, n.attributes);
    lemma_run_attribute_edits(e, x as usize, edits, edits.len());
    let e1 = ran(e, pa).0;
    assert(e1 == e.update(x, LiveView { attributes: stored(n.attributes), ..e[x] }));
    lemma_same_links_keep_tree(e, e1);

    assert(pb =~= bound_to(arity, x));
    let e2 = ran(e1, pb).0;
    lemma_ran_concat(e, pa, pb);
    if olds.len() > news.len() {
        let op = OperationView::RemoveLast(olds.len() - news.len());
        assert(arity =~= seq![op]);
        lemma_ran_one(e1, x, op);
        lemma_released_last(e1, x as usize, (olds.len() - news.len()) as nat);
        assert(e2 == released_last(e1, x as usize, (olds.len() - news.len()) as nat));
        assert(kept_but(e, e2, block(x, x + 1))) by {
            assert forall|y: int| 0 <= y < e.len() && !block(x, x + 1).contains(y) implies (
            #[trigger] e2[y]).text == e[y].text && e2[y].tag == e[y].tag && e2[y].attributes
                == e[y].attributes && e2[y].children == e[y].children by {
                assert(e1[y] == e[y]);
            }
        }
    } else if olds.len() < news.len() {
        let surplus = news.subrange(olds.len() as int, news.len() as int);
        let op = OperationView::Append(surplus);
        assert(arity =~= seq![op]);
        lemma_ran_one(e1, x, op);
        lemma_children_made(e1, x as usize, surplus, surplus.len());
        assert(e2 == with_children_made(e1, x as usize, surplus, surplus.len()));
        assert forall|j: int| shared <= j < news.len() implies (#[trigger] e2[x].children[j])
            == e.len() + forest_size(surplus, (j - shared) as nat) by {
            assert(e2[x].children[j] == fresh_slots(e1.len() as int, surplus, surplus.len())[j
                - shared]);
            lemma_forest_size_grows(surplus, (j - shared) as nat, surplus.len());
        }
    } else {
        assert(pb =~= Seq::<PatchView>::empty());
        assert(e2 == e1);
    }
}

/// The element itself and its children, each done, make the element done.
pub proof fn lemma_assemble(
    e: Seq<LiveView>,
    g: Seq<LiveView>,
    f: Seq<LiveView>,
    order: Seq<usize>,
    a: int,
    o: NodeView,
    n: NodeView,
)
    requires
        tree_ok(e),
        seating(order, e.len() as int),
        placed(e, order, a, ChildView::Node(o)),
        o.tag == n.tag,
        e.len() + size(n) <= usize::MAX,
        own_done(e, g, order[a] as int, o, n),
        children_done(
            g,
            f,
            order,
            a,
            o.children,
            n.children,
            shared_len(o.children.len(), n.children.len()),
        ),
    ensures
        node_done(e, f, order, a, o, n),
{
    let x = order[a] as int;
    let olds = o.children;
    let news = n.children;
    let shared = shared_len(olds.len(), news.len());
    let hi = a + size(o);
    let whole = span(order, a, hi, e.len() as int, f.len() as int);
    let below = touched(order, x, a + 1, a + 1 + forest_size(olds, shared));
    lemma_forest_split(olds, shared);
    lemma_forest_split(news, shared);
    lemma_forest_size_grows(olds, shared, olds.len());
    assert(span(order, a + 1, a + 1 + forest_size(olds, shared), g.len() as int, f.len() as int).subset_of(
        whole,
    ));
    lemma_forest_mirrors_widen(
        f,
        f[x].children,
        news,
        shared,
        span(order, a + 1, a + 1 + forest_size(olds, shared), g.len() as int, f.len() as int),
        whole,
    );
    if olds.len() < news.len() {
        let surplus = news.subrange(olds.len() as int, news.len() as int);
        assert forall|j: int| shared <= j < news.len() implies mirrors_in(
            f,
            #[trigger] f[x].children[j],
            news[j],
            whole,
        ) by {
            let i = j - shared;
            let at: int = (e.len() + forest_size(surplus, i as nat)) as int;
            lemma_forest_laid_at(g, e.len() as int, surplus, surplus.len(), i);
            lemma_forest_size_grows(surplus, (i + 1) as nat, surplus.len());
            assert(forest_size(surplus, (i + 1) as nat) == forest_size(surplus, i as nat)
                + child_size(surplus[i]));
            assert forall|y: int| at <= y < at + child_size(surplus[i]) implies (
            #[trigger] f[y]).text == g[y].text && f[y].tag == g[y].tag && f[y].attributes
                == g[y].attributes && f[y].children == g[y].children by {
                lemma_fresh_not_touched(
                    order,
                    e.len() as int,
                    x,
                    a + 1,
                    a + 1 + forest_size(olds, shared),
                    y,
                );
            }
            assert(same_between(g, f, at, at + child_size(surplus[i])));
            lemma_laid_frame(g, f, at, surplus[i]);
            lemma_laid_mirrors(f, at, surplus[i]);
            assert(block(at, at + child_size(surplus[i])).subset_of(whole));
            lemma_mirrors_widen(
                f,
                at as usize,
                surplus[i],
                block(at, at + child_size(surplus[i])),
                whole,
            );
            assert(f[x].children[j] == g[x].children[j]);
            assert(surplus[i] == news[j]);
        }
        lemma_forest_mirrors_extend(f, f[x].children, news, shared, news.len(), whole);
    }
    assert(at_place(order, a, hi, x));
    assert(whole.contains(x));
    assert(kept_but(e, f, touched(order, x, a, hi))) by {
        assert forall|y: int| 0 <= y < e.len() && !touched(order, x, a, hi).contains(y) implies (
        #[trigger] f[y]).text == e[y].text && f[y].tag == e[y].tag && f[y].attributes
            == e[y].attributes && f[y].children == e[y].children by {
            assert(!block(x, x + 1).contains(y));
            assert(!below.contains(y));
            assert(g[y].text == e[y].text);
        }
    }
}

/// The patches for one pair of elements, executed on a tree in which the old
/// element sits at address `a`, leave a tree in which the node at that
/// address matches the new element.
pub proof fn lemma_node_patches(
    e: Seq<LiveView>,
    order: Seq<usize>,
    a: int,
    o: NodeView,
    n: NodeView,
)
    requires
        tree_ok(e),
        seating(order, e.len() as int),
        placed(e, order, a, ChildView::Node(o)),
        reconcilable(o, n),
        e.len() + size(n) <= usize::MAX,
    ensures
        ran(e, bind(node_diff(o, n, a), order)).1 is None,
        node_done(e, ran(e, bind(node_diff(o, n, a), order)).0, order, a, o, n),
    decreases o, 0nat,
{
    let x = order[a] as int;
    let olds = o.children;
    let news = n.children;
    let shared = shared_len(olds.len(), news.len());
    let own = addressed(attribute_edits(o.attributes, n.attributes), a) + addressed(
        arity_edits(olds, news),
        a,
    );
    let below = children_diff(olds, news, shared, a);
    lemma_bind_concat(own, below, order);
    lemma_forest_split(olds, shared);
    lemma_forest_split(news, shared);
    lemma_own_patches(e, order, a, o, n);
    let g = ran(e, bind(own, order)).0;

    lemma_forest_size_grows(olds, shared, olds.len());
    assert forall|j: int| 0 <= j < shared implies (#[trigger] g[x].children[j]) == order[a + 1
        + forest_size(olds, j as nat)] by {
        assert(g[x].children[j] == e[x].children[j]);
        assert(e[x].children[j] == seats(order, a, olds)[j]);
    }
    lemma_forest_placed_prefix(e, order, a + 1, olds, olds.len(), shared);
    assert forall|i: int|
        a + 1 <= i < a + 1 + forest_size(olds, shared) && 0 <= i < order.len() implies !block(
        x,
        x + 1,
    ).contains(#[trigger] order[i] as int) by {
        assert(order[i] != order[a]);
    }
    lemma_same_on_span(
        e,
        g,
        order,
        block(x, x + 1),
        a + 1,
        a + 1 + forest_size(olds, shared),
        0,
        0,
    );
    lemma_forest_placed_frame(e, g, order, a + 1, olds, shared);
    lemma_forest_size_grows(news, shared, news.len());
    lemma_children_patches(g, order, a, olds, news, shared);
    let f = ran(g, bind(below, order)).0;
    lemma_ran_concat(e, bind(own, order), bind(below, order));
    lemma_assemble(e, g, f, order, a, o, n);
}

/// Applying the diff of `old` and `new` to a live tree that matches `old`
/// gives a live tree that matches `new`. This holds of the pairs that can be
/// reconciled, for an arena with room for the nodes that are made. Nothing
/// goes wrong on the way: every address is reached, and every patch can be
/// executed.
pub proof fn lemma_apply_reconciles(e: Seq<LiveView>, root: usize, old: NodeView, new: NodeView)
    requires
        tree_ok(e),
        mirrors(e, root, ChildView::Node(old)),
        reconcilable(old, new),
        e.len() + size(new) <= usize::MAX,
    ensures
        ({
            let out = applied(e, root, node_diff(old, new, 0));
            &&& out.1 is None
            &&& tree_ok(out.0)
            &&& mirrors(out.0, root, ChildView::Node(new))
        }),
{
    let order = preorder(e, root);
    let ps = node_diff(old, new, 0);
    lemma_preorder_seating(e, root);
    assert(order.subrange(0, order.len() as int) =~= order);
    lemma_mirrors_placed(e, order, 0, root, ChildView::Node(old), block(0, e.len() as int));
    lemma_diff_addresses_ascend(old, new, 0);
    lemma_node_patches(e, order, 0, old, new);
    lemma_resolved_is_bind(ps, order);
    let f = ran(e, bind(ps, order)).0;
    assert(applied(e, root, ps) == ran(e, bind(ps, order)));
    assert(span(order, 0, size(old) as int, e.len() as int, f.len() as int).subset_of(
        block(0, f.len() as int),
    )) by {
        assert forall|y: int|
            span(order, 0, size(old) as int, e.len() as int, f.len() as int).contains(
                y,
            ) implies block(0, f.len() as int).contains(y) by {
            if at_place(order, 0, size(old) as int, y) {
                let w = choose|w: int|
                    0 <= w < size(old) && 0 <= w < order.len() && #[trigger] order[w] == y;
                assert(order[w] < e.len());
            }
        }
    }
    lemma_mirrors_widen(
        f,
        root,
        ChildView::Node(new),
        span(order, 0, size(old) as int, e.len() as int, f.len() as int),
        block(0, f.len() as int),
    );
}

/// The live tree made from a snapshot matches the snapshot.
pub proof fn lemma_materialized_mirrors(d: Seq<LiveView>, n: NodeView)
    requires
        tree_ok(d),
        d.len() + size(n) <= usize::MAX,
    ensures
        tree_ok(materialized(d, n)),
        mirrors(materialized(d, n), d.len() as usize, ChildView::Node(n)),
{
    let m = materialized(d, n);
    lemma_materialized(d, n);
    lemma_laid_mirrors(m, d.len() as int, ChildView::Node(n));
    lemma_mirrors_widen(
        m,
        d.len() as usize,
        ChildView::Node(n),
        block(d.len() as int, (d.len() + size(n)) as int),
        block(0, m.len() as int),
    );
}

/// Materializing `old`, computing the diff of `old` and `new` and applying it
/// gives a live tree that matches `new`, as materializing `new` does.
pub proof fn lemma_made_tree_reconciles(d: Seq<LiveView>, old: NodeView, new: NodeView)
    requires
        tree_ok(d),
        reconcilable(old, new),
        d.len() + size(old) + size(new) <= usize::MAX,
    ensures
        ({
            let root = d.len() as usize;
            let out = applied(materialized(d, old), root, node_diff(old, new, 0));
            &&& out.1 is None
            &&& tree_ok(out.0)
            &&& mirrors(out.0, root, ChildView::Node(new))
        }),
        mirrors(materialized(d, new), d.len() as usize, ChildView::Node(new)),
{
    lemma_materialized(d, old);
    lemma_materialized_mirrors(d, old);
    lemma_apply_reconciles(materialized(d, old), d.len() as usize, old, new);
    lemma_materialized_mirrors(d, new);
}

} // verus!
