//! Where a node stands in the pre-order of a subtree, and how the place
//! changes from a node to its first child, its next sibling and its parent.

use crate::tree::{forest_order, lemma_only_index, next_sibling_of, node_ok, place, preorder};
use crate::tree::{tree_ok, under, LiveView};
use vstd::prelude::*;

verus! {

/// The pre-order of the first `n + 1` children is that of the first `n`
/// followed by the subtree of the next child.
pub proof fn lemma_forest_step(d: Seq<LiveView>, id: usize, n: nat)
    requires
        tree_ok(d),
        id < d.len(),
        n < d[id as int].children.len(),
    ensures
        forest_order(d, id, n + 1) == forest_order(d, id, n) + preorder(
            d,
            d[id as int].children[n as int],
        ),
{
    assert(node_ok(d, id as int));
    let c = d[id as int].children[n as int];
    assert(id < c < d.len());
}

/// The first `n` children cover no more of the pre-order than the first `m`.
pub proof fn lemma_forest_grows(d: Seq<LiveView>, id: usize, n: nat, m: nat)
    requires
        tree_ok(d),
        id < d.len(),
        n <= m <= d[id as int].children.len(),
    ensures
        forest_order(d, id, n).len() <= forest_order(d, id, m).len(),
        forest_order(d, id, m).subrange(0, forest_order(d, id, n).len() as int) == forest_order(
            d,
            id,
            n,
        ),
    decreases m,
{
    if n < m {
        lemma_forest_grows(d, id, n, (m - 1) as nat);
        lemma_forest_step(d, id, (m - 1) as nat);
        let shorter = forest_order(d, id, (m - 1) as nat);
        let first = forest_order(d, id, n);
        assert(forest_order(d, id, m).subrange(0, first.len() as int) =~= shorter.subrange(
            0,
            first.len() as int,
        ));
    } else {
        assert(forest_order(d, id, m).subrange(0, forest_order(d, id, n).len() as int)
            =~= forest_order(d, id, n));
    }
}

/// The subtree of child `j` stands in the pre-order of the children right
/// after the subtrees of the children before it.
pub proof fn lemma_forest_block(d: Seq<LiveView>, id: usize, j: nat)
    requires
        tree_ok(d),
        id < d.len(),
        j < d[id as int].children.len(),
    ensures
        ({
            let all = forest_order(d, id, d[id as int].children.len());
            let start = forest_order(d, id, j).len() as int;
            let sub = preorder(d, d[id as int].children[j as int]);
            start + sub.len() <= all.len() && all.subrange(start, start + sub.len()) == sub
        }),
{
    let len = d[id as int].children.len();
    let all = forest_order(d, id, len);
    let upto = forest_order(d, id, j + 1);
    let start = forest_order(d, id, j).len() as int;
    let sub = preorder(d, d[id as int].children[j as int]);
    lemma_forest_step(d, id, j);
    lemma_forest_grows(d, id, j + 1, len);
    assert(upto.subrange(start, start + sub.len()) =~= sub);
    assert(all.subrange(start, start + sub.len()) =~= all.subrange(0, upto.len() as int).subrange(
        start,
        start + sub.len(),
    ));
}

/// A node of the subtree under `root` stands at its place in the pre-order of
/// that subtree, followed there by its own subtree.
pub proof fn lemma_place(d: Seq<LiveView>, root: usize, x: usize)
    requires
        tree_ok(d),
        under(d, root, x),
    ensures
        ({
            let all = preorder(d, root);
            let at = place(d, root, x);
            let sub = preorder(d, x);
            &&& 0 <= at
            &&& sub.len() >= 1
            &&& at + sub.len() <= all.len()
            &&& all.subrange(at, at + sub.len()) == sub
            &&& all[at] == x
        }),
    decreases x,
{
    let all = preorder(d, root);
    let at = place(d, root, x);
    let sub = preorder(d, x);
    assert(sub[0] == x);
    if x == root {
        assert(all.subrange(0, all.len() as int) =~= all);
    } else {
        let p = d[x as int].parent->0;
        lemma_place(d, root, p);
        assert(node_ok(d, x as int));
        let j = d[p as int].children.index_of(x);
        assert(d[p as int].children[j] == x);
        lemma_forest_block(d, p, j as nat);
        let pat = place(d, root, p);
        let psub = preorder(d, p);
        let kids = forest_order(d, p, d[p as int].children.len());
        let start = forest_order(d, p, j as nat).len() as int;
        assert(psub == seq![p] + kids);
        assert(at == pat + 1 + start);
        assert(psub.subrange(1 + start, 1 + start + sub.len()) =~= kids.subrange(
            start,
            start + sub.len(),
        ));
        assert(all.subrange(at, at + sub.len()) =~= all.subrange(pat, pat + psub.len()).subrange(
            1 + start,
            1 + start + sub.len(),
        ));
        assert(all.subrange(at, at + sub.len())[0] == all[at]);
    }
}

/// The first child of a node stands right after the node.
pub proof fn lemma_first_child_place(d: Seq<LiveView>, root: usize, x: usize)
    requires
        tree_ok(d),
        under(d, root, x),
        d[x as int].children.len() > 0,
    ensures
        under(d, root, d[x as int].children[0]),
        place(d, root, d[x as int].children[0]) == place(d, root, x) + 1,
{
    assert(node_ok(d, x as int));
    let c = d[x as int].children[0];
    assert(d[c as int].parent == Some(x));
    lemma_only_index(d[x as int].children, c, 0);
    lemma_root_has_no_inner_parent(d, root, x, c);
}

/// A child of a node under `root` is not `root` itself.
pub proof fn lemma_root_has_no_inner_parent(d: Seq<LiveView>, root: usize, x: usize, c: usize)
    requires
        tree_ok(d),
        under(d, root, x),
        c < d.len(),
        d[c as int].parent == Some(x),
    ensures
        c != root,
        x < c,
        under(d, root, c),
    decreases x,
{
    assert(node_ok(d, c as int));
    lemma_under_is_below(d, root, x);
}

/// A node under `root` was made no earlier than `root`.
pub proof fn lemma_under_is_below(d: Seq<LiveView>, root: usize, x: usize)
    requires
        under(d, root, x),
    ensures
        root <= x,
    decreases x,
{
    if x != root {
        lemma_under_is_below(d, root, d[x as int].parent->0);
    }
}

/// The next sibling of a node stands right after the node's subtree.
pub proof fn lemma_sibling_place(d: Seq<LiveView>, root: usize, y: usize, s: usize)
    requires
        tree_ok(d),
        under(d, root, y),
        y != root,
        next_sibling_of(d, y) == Some(s),
    ensures
        under(d, root, s),
        s != root,
        place(d, root, s) == place(d, root, y) + preorder(d, y).len(),
{
    assert(node_ok(d, y as int));
    let p = d[y as int].parent->0;
    assert(node_ok(d, p as int));
    let siblings = d[p as int].children;
    let j = siblings.index_of(y);
    assert(siblings[j] == y);
    assert(s == siblings[j + 1]);
    assert(d[s as int].parent == Some(p));
    lemma_only_index(siblings, s, j + 1);
    lemma_forest_step(d, p, j as nat);
    lemma_root_has_no_inner_parent(d, root, p, s);
}

/// A last child ends where its parent's subtree ends.
pub proof fn lemma_last_child_place(d: Seq<LiveView>, root: usize, y: usize)
    requires
        tree_ok(d),
        under(d, root, y),
        y != root,
        next_sibling_of(d, y) is None,
    ensures
        d[y as int].parent is Some,
        under(d, root, d[y as int].parent->0),
        place(d, root, d[y as int].parent->0) + preorder(d, d[y as int].parent->0).len() == place(
            d,
            root,
            y,
        ) + preorder(d, y).len(),
{
    assert(node_ok(d, y as int));
    let p = d[y as int].parent->0;
    assert(node_ok(d, p as int));
    let siblings = d[p as int].children;
    let j = siblings.index_of(y);
    assert(siblings[j] == y);
    assert(j + 1 == siblings.len());
    lemma_forest_step(d, p, j as nat);
}

} // verus!
