//! How the live nodes made from a snapshot lie in the arena: one after the
//! other in pre-order, so that the node at address `a` of a subtree made at
//! `b` has the number `b + a`.

use crate::attribute::{AttrKind, AttrValueView, AttrView};
use crate::dom::{fresh_element, fresh_text, lemma_push_keeps_tree};
use crate::events::ListenerView;
use crate::node::{child_size, forest_size, size, ChildView, NodeView};
use crate::root::{child_materialized, materialized, with_attributes, with_children_made};
use crate::root::with_listeners;
use crate::tree::{lemma_adopt_keeps_tree, lemma_same_links_keep_tree, stored, tree_ok};
use crate::tree::{with_child_at, LiveView};
use vstd::prelude::*;

verus! {

/// The numbers of the children of an element made at `b` for a snapshot with
/// children `cs`: each child follows the subtrees of the children before it.
pub open spec fn slots(b: int, cs: Seq<ChildView>) -> Seq<usize> {
    Seq::new(cs.len(), |j: int| (b + 1 + forest_size(cs, j as nat)) as usize)
}

/// The live nodes from `b` on are those of the child `c`, in pre-order.
pub open spec fn laid(e: Seq<LiveView>, b: int, c: ChildView) -> bool
    decreases c, 0nat,
{
    &&& 0 <= b
    &&& b + child_size(c) <= e.len()
    &&& match c {
        ChildView::Text(s) => e[b].text == Some(s) && e[b].children.len() == 0,
        ChildView::Node(n) => {
            &&& e[b].text is None
            &&& e[b].tag == n.tag
            &&& e[b].attributes == stored(n.attributes)
            &&& e[b].children == slots(b, n.children)
            &&& forest_laid(e, b + 1, n.children, n.children.len())
        },
    }
}

/// The live nodes from `first` on are those of the first `k` children of
/// `cs`, subtree after subtree.
pub open spec fn forest_laid(e: Seq<LiveView>, first: int, cs: Seq<ChildView>, k: nat) -> bool
    decreases cs, k,
{
    if k == 0 || k > cs.len() {
        true
    } else {
        forest_laid(e, first, cs, (k - 1) as nat) && laid(
            e,
            first + forest_size(cs, (k - 1) as nat),
            cs[k - 1],
        )
    }
}

/// Two arenas hold the same text, tag, attributes and children at every node
/// from `lo` up to `hi`.
pub open spec fn same_between(e: Seq<LiveView>, f: Seq<LiveView>, lo: int, hi: int) -> bool {
    forall|y: int|
        lo <= y < hi ==> (#[trigger] f[y]).text == e[y].text && f[y].tag == e[y].tag
            && f[y].attributes == e[y].attributes && f[y].children == e[y].children
}

/// A subtree that lies in one arena lies in every arena that holds the same
/// at its nodes.
pub proof fn lemma_laid_frame(e: Seq<LiveView>, f: Seq<LiveView>, b: int, c: ChildView)
    requires
        laid(e, b, c),
        e.len() <= f.len(),
        same_between(e, f, b, b + child_size(c)),
    ensures
        laid(f, b, c),
    decreases c, 0nat,
{
    assert(f[b].text == e[b].text);
    match c {
        ChildView::Text(_) => {},
        ChildView::Node(n) => {
            lemma_forest_laid_frame(e, f, b + 1, n.children, n.children.len());
        },
    }
}

/// `lemma_laid_frame` for the first `k` children of a list.
pub proof fn lemma_forest_laid_frame(
    e: Seq<LiveView>,
    f: Seq<LiveView>,
    first: int,
    cs: Seq<ChildView>,
    k: nat,
)
    requires
        k <= cs.len(),
        forest_laid(e, first, cs, k),
        e.len() <= f.len(),
        same_between(e, f, first, first + forest_size(cs, k)),
    ensures
        forest_laid(f, first, cs, k),
    decreases cs, k,
{
    if k > 0 {
        lemma_forest_laid_frame(e, f, first, cs, (k - 1) as nat);
        lemma_laid_frame(e, f, first + forest_size(cs, (k - 1) as nat), cs[k - 1]);
    }
}

/// Storing a list of attributes on a node that holds none leaves what
/// `stored` says, and touches nothing else.
pub proof fn lemma_with_attributes(d: Seq<LiveView>, id: usize, attrs: Seq<AttrView>, k: nat)
    requires
        id < d.len(),
        k <= attrs.len(),
        d[id as int].attributes == Map::<(AttrKind, Seq<char>), AttrValueView>::empty(),
    ensures
        with_attributes(d, id, attrs, k) == d.update(
            id as int,
            LiveView { attributes: stored(attrs.take(k as int)), ..d[id as int] },
        ),
    decreases k,
{
    if k == 0 {
        assert(attrs.take(0) =~= Seq::empty());
        assert(with_attributes(d, id, attrs, k) =~= d.update(
            id as int,
            LiveView { attributes: stored(attrs.take(k as int)), ..d[id as int] },
        ));
    } else {
        lemma_with_attributes(d, id, attrs, (k - 1) as nat);
        assert(attrs.take(k as int).drop_last() =~= attrs.take(k - 1));
        assert(attrs.take(k as int).last() == attrs[k - 1]);
        assert(with_attributes(d, id, attrs, k) =~= d.update(
            id as int,
            LiveView { attributes: stored(attrs.take(k as int)), ..d[id as int] },
        ));
    }
}

/// Installing listeners changes only the listeners of the node.
pub proof fn lemma_with_listeners(d: Seq<LiveView>, id: usize, ls: Seq<ListenerView>, k: nat)
    requires
        id < d.len(),
        k <= ls.len(),
    ensures
        with_listeners(d, id, ls, k).len() == d.len(),
        forall|y: int|
            0 <= y < d.len() ==> {
                let w = #[trigger] with_listeners(d, id, ls, k)[y];
                &&& w.parent == d[y].parent
                &&& w.children == d[y].children
                &&& w.text == d[y].text
                &&& w.tag == d[y].tag
                &&& w.attributes == d[y].attributes
                &&& y != id ==> w == d[y]
            },
    decreases k,
{
    if k > 0 {
        lemma_with_listeners(d, id, ls, (k - 1) as nat);
    }
}

/// The numbers of the first `k` nodes made one after the other from `base`
/// on for the children `cs`.
pub open spec fn fresh_slots(base: int, cs: Seq<ChildView>, k: nat) -> Seq<usize> {
    Seq::new(k, |j: int| (base + forest_size(cs, j as nat)) as usize)
}

/// Making a live element for a snapshot adds its nodes at the end of the
/// arena, in pre-order, and touches no node that was there.
pub proof fn lemma_materialized(d: Seq<LiveView>, n: NodeView)
    requires
        tree_ok(d),
        d.len() + size(n) <= usize::MAX,
    ensures
        tree_ok(materialized(d, n)),
        materialized(d, n).len() == d.len() + size(n),
        laid(materialized(d, n), d.len() as int, ChildView::Node(n)),
        forall|y: int| 0 <= y < d.len() ==> materialized(d, n)[y] == d[y],
        materialized(d, n)[d.len() as int].parent is None,
    decreases n, 0nat,
{
    let id = d.len() as usize;
    let made = d.push(fresh_element(n.tag));
    lemma_push_keeps_tree(d, fresh_element(n.tag));
    let dressed = with_attributes(made, id, n.attributes, n.attributes.len());
    lemma_with_attributes(made, id, n.attributes, n.attributes.len());
    assert(n.attributes.take(n.attributes.len() as int) =~= n.attributes);
    lemma_same_links_keep_tree(made, dressed);
    let filled = with_children_made(dressed, id, n.children, n.children.len());
    lemma_children_made(dressed, id, n.children, n.children.len());
    let done = with_listeners(filled, id, n.listeners, n.listeners.len());
    lemma_with_listeners(filled, id, n.listeners, n.listeners.len());
    lemma_same_links_keep_tree(filled, done);
    assert(filled[id as int].children =~= slots(id as int, n.children));
    assert(same_between(filled, done, id as int, (id + size(n)) as int));
    assert(laid(filled, id as int, ChildView::Node(n)));
    lemma_laid_frame(filled, done, id as int, ChildView::Node(n));
}

/// Making live nodes for children and appending them to an element adds the
/// nodes at the end of the arena, subtree after subtree, lists them after the
/// element's children, and touches no other node that was there.
pub proof fn lemma_children_made(e: Seq<LiveView>, p: usize, cs: Seq<ChildView>, k: nat)
    requires
        tree_ok(e),
        p < e.len(),
        e[p as int].text is None,
        k <= cs.len(),
        e.len() + forest_size(cs, k) <= usize::MAX,
    ensures
        ({
            let w = with_children_made(e, p, cs, k);
            &&& tree_ok(w)
            &&& w.len() == e.len() + forest_size(cs, k)
            &&& w[p as int] == LiveView {
                children: e[p as int].children + fresh_slots(e.len() as int, cs, k),
                ..e[p as int]
            }
            &&& forall|y: int| 0 <= y < e.len() && y != p ==> w[y] == e[y]
            &&& forest_laid(w, e.len() as int, cs, k)
        }),
    decreases cs, k,
{
    let w = with_children_made(e, p, cs, k);
    if k == 0 {
        assert(e[p as int].children + fresh_slots(e.len() as int, cs, k) =~= e[p as int].children);
    } else {
        let before = with_children_made(e, p, cs, (k - 1) as nat);
        assert(forest_size(cs, k) == forest_size(cs, (k - 1) as nat) + child_size(cs[k - 1]));
        lemma_children_made(e, p, cs, (k - 1) as nat);
        let c = before.len() as usize;
        let made = child_materialized(before, cs[k - 1]);
        match cs[k - 1] {
            ChildView::Text(s) => {
                lemma_push_keeps_tree(before, fresh_text(s));
            },
            ChildView::Node(m) => {
                lemma_materialized(before, m);
            },
        }
        assert(laid(made, c as int, cs[k - 1]));
        assert(made[p as int] == before[p as int]);
        let at = made[p as int].children.len() as int;
        lemma_adopt_keeps_tree(made, p, at, c);
        assert(w == with_child_at(made, p, at, c));
        assert(made[p as int].children.insert(at, c) =~= made[p as int].children.push(c));
        assert(w[p as int].children =~= e[p as int].children + fresh_slots(
            e.len() as int,
            cs,
            k,
        ));
        assert(same_between(made, w, c as int, (c + child_size(cs[k - 1])) as int));
        lemma_laid_frame(made, w, c as int, cs[k - 1]);
        assert(same_between(
            before,
            w,
            e.len() as int,
            (e.len() + forest_size(cs, (k - 1) as nat)) as int,
        ));
        lemma_forest_laid_frame(before, w, e.len() as int, cs, (k - 1) as nat);
    }
}

} // verus!
