//! What holds of every diff: equal snapshots need no patch, and the patches
//! come in the order of their addresses.

use crate::attribute::{lemma_position_of, lookup, AttrView};
use crate::diff::{addressed, arity_edits, attribute_edits, child_address, child_diff};
use crate::diff::children_diff;
use crate::diff::{fresh_edits, node_diff, shared_len, stale_edits, PatchView};
use crate::node::{child_equal, children_equal, node_equal, same_attributes};
use crate::node::{child_size, forest_size, size, ChildView, NodeView};
use vstd::prelude::*;

verus! {

/// No patch names a node before an earlier patch's node.
pub open spec fn ascending(patches: Seq<PatchView>) -> bool {
    forall|i: int, j: int|
        0 <= i < j < patches.len() ==> (#[trigger] patches[i]).node <= (#[trigger] patches[j]).node
}

/// Each patch names a node after the one before it.
pub open spec fn strictly_ascending(patches: Seq<PatchView>) -> bool {
    forall|i: int, j: int|
        0 <= i < j < patches.len() ==> (#[trigger] patches[i]).node < (#[trigger] patches[j]).node
}

/// Every patch names a node from `lo` to `hi`.
pub open spec fn within(patches: Seq<PatchView>, lo: int, hi: int) -> bool {
    forall|i: int| 0 <= i < patches.len() ==> lo <= (#[trigger] patches[i]).node <= hi
}

/// Wherever two elements of the same tag are compared, the element itself
/// gets at most one patch.
pub open spec fn one_edit_each(old: NodeView, new: NodeView) -> bool
    decreases old, 0nat,
{
    old.tag != new.tag || {
        &&& attribute_edits(old.attributes, new.attributes).len() + arity_edits(
            old.children,
            new.children,
        ).len() <= 1
        &&& children_one_edit_each(
            old.children,
            new.children,
            shared_len(old.children.len(), new.children.len()),
        )
    }
}

/// `one_edit_each` for the first `n` pairs of children.
pub open spec fn children_one_edit_each(old: Seq<ChildView>, new: Seq<ChildView>, n: nat) -> bool
    decreases old, n,
{
    if n == 0 || n > old.len() || n > new.len() {
        true
    } else {
        children_one_edit_each(old, new, (n - 1) as nat) && match (old[n - 1], new[n - 1]) {
            (ChildView::Node(o), ChildView::Node(m)) => one_edit_each(o, m),
            _ => true,
        }
    }
}

/// Attributes that `new` holds the same give no edit.
proof fn lemma_stale_edits_of_same(old: Seq<AttrView>, new: Seq<AttrView>, n: nat)
    requires
        same_attributes(old, new),
        n <= old.len(),
    ensures
        stale_edits(old, new, n) == Seq::<crate::diff::OperationView>::empty(),
    decreases n,
{
    if n > 0 {
        lemma_stale_edits_of_same(old, new, (n - 1) as nat);
        let key = old[n - 1].key;
        lemma_position_of(old, key);
        assert(lookup(old, key) == lookup(new, key));
    }
}

/// Attributes that `old` holds as well give no edit.
proof fn lemma_fresh_edits_of_same(old: Seq<AttrView>, new: Seq<AttrView>, n: nat)
    requires
        same_attributes(old, new),
        n <= new.len(),
    ensures
        fresh_edits(old, new, n) == Seq::<crate::diff::OperationView>::empty(),
    decreases n,
{
    if n > 0 {
        lemma_fresh_edits_of_same(old, new, (n - 1) as nat);
        let key = new[n - 1].key;
        lemma_position_of(new, key);
        assert(lookup(old, key) == lookup(new, key));
    }
}

/// The diff of a snapshot with itself, or with any snapshot equal to it, is
/// the empty list of patches.
pub proof fn lemma_equal_snapshots_need_no_patch(old: NodeView, new: NodeView, addr: int)
    requires
        node_equal(old, new),
    ensures
        node_diff(old, new, addr) == Seq::<PatchView>::empty(),
    decreases old, 0nat,
{
    lemma_stale_edits_of_same(old.attributes, new.attributes, old.attributes.len());
    lemma_fresh_edits_of_same(old.attributes, new.attributes, new.attributes.len());
    lemma_equal_children_need_no_patch(old.children, new.children, old.children.len(), addr);
    assert(node_diff(old, new, addr) =~= Seq::<PatchView>::empty());
}

/// Children that are pairwise equal give no patch.
pub proof fn lemma_equal_children_need_no_patch(
    old: Seq<ChildView>,
    new: Seq<ChildView>,
    n: nat,
    addr: int,
)
    requires
        n <= old.len(),
        n <= new.len(),
        children_equal(old, new, n),
    ensures
        children_diff(old, new, n, addr) == Seq::<PatchView>::empty(),
    decreases old, n,
{
    if n > 0 {
        lemma_equal_children_need_no_patch(old, new, (n - 1) as nat, addr);
        let before = children_diff(old, new, (n - 1) as nat, addr);
        let at = child_address(old, (n - 1) as nat, addr);
        assert(child_equal(old[n - 1], new[n - 1]));
        match (old[n - 1], new[n - 1]) {
            (ChildView::Node(o), ChildView::Node(m)) => {
                lemma_equal_snapshots_need_no_patch(o, m, at);
            },
            _ => {},
        }
        let here = child_diff(old[n - 1], new[n - 1], at);
        assert(here =~= Seq::<PatchView>::empty());
        assert(children_diff(old, new, n, addr) =~= before + here);
    }
}

/// The diff of a snapshot with itself is the empty list of patches.
pub proof fn lemma_diff_with_itself_is_empty(a: NodeView, addr: int)
    ensures
        node_diff(a, a, addr) == Seq::<PatchView>::empty(),
{
    lemma_node_equal_reflexive(a);
    lemma_equal_snapshots_need_no_patch(a, a, addr);
}

/// Equality of snapshots does not depend on the side.
pub proof fn lemma_node_equal_symmetric(a: NodeView, b: NodeView)
    requires
        node_equal(a, b),
    ensures
        node_equal(b, a),
    decreases a, 0nat,
{
    lemma_children_equal_symmetric(a.children, b.children, a.children.len());
}

/// Equality of the first `n` pairs of children does not depend on the side.
pub proof fn lemma_children_equal_symmetric(a: Seq<ChildView>, b: Seq<ChildView>, n: nat)
    requires
        n <= a.len(),
        n <= b.len(),
        children_equal(a, b, n),
    ensures
        children_equal(b, a, n),
    decreases a, n,
{
    if n > 0 {
        lemma_children_equal_symmetric(a, b, (n - 1) as nat);
        assert(child_equal(a[n - 1], b[n - 1]));
        match (a[n - 1], b[n - 1]) {
            (ChildView::Node(x), ChildView::Node(y)) => {
                lemma_node_equal_symmetric(x, y);
            },
            _ => {},
        }
        assert(child_equal(b[n - 1], a[n - 1]));
    }
}

/// The edits for the first attributes of `old` are among those for more of
/// them.
proof fn lemma_stale_edits_grow(old: Seq<AttrView>, new: Seq<AttrView>, n: nat, m: nat)
    requires
        n <= m <= old.len(),
    ensures
        stale_edits(old, new, n).len() <= stale_edits(old, new, m).len(),
    decreases m,
{
    if n < m {
        lemma_stale_edits_grow(old, new, n, (m - 1) as nat);
    }
}

/// The edits for the first attributes of `new` are among those for more of
/// them.
proof fn lemma_fresh_edits_grow(old: Seq<AttrView>, new: Seq<AttrView>, n: nat, m: nat)
    requires
        n <= m <= new.len(),
    ensures
        fresh_edits(old, new, n).len() <= fresh_edits(old, new, m).len(),
    decreases m,
{
    if n < m {
        lemma_fresh_edits_grow(old, new, n, (m - 1) as nat);
    }
}

/// Attributes that give no edit are the same on both sides.
proof fn lemma_no_edit_means_same_attributes(old: Seq<AttrView>, new: Seq<AttrView>)
    requires
        attribute_edits(old, new).len() == 0,
    ensures
        same_attributes(old, new),
{
    assert forall|key: Seq<char>| lookup(old, key) == lookup(new, key) by {
        lemma_position_of(old, key);
        lemma_position_of(new, key);
        let p = crate::attribute::position_of(old, key);
        let q = crate::attribute::position_of(new, key);
        if p < old.len() {
            lemma_stale_edits_grow(old, new, (p + 1) as nat, old.len());
            assert(stale_edits(old, new, (p + 1) as nat).len() == 0);
            assert(old[p].key == key);
        } else if q < new.len() {
            lemma_fresh_edits_grow(old, new, (q + 1) as nat, new.len());
            assert(fresh_edits(old, new, (q + 1) as nat).len() == 0);
            assert(new[q].key == key);
        }
    }
}

/// A diff without patches means equal snapshots.
pub proof fn lemma_no_patch_means_equal(old: NodeView, new: NodeView, addr: int)
    requires
        node_diff(old, new, addr).len() == 0,
    ensures
        node_equal(old, new),
    decreases old, 0nat,
{
    assert(old.tag == new.tag);
    let n = shared_len(old.children.len(), new.children.len());
    assert(attribute_edits(old.attributes, new.attributes).len() == 0);
    assert(arity_edits(old.children, new.children).len() == 0);
    lemma_no_edit_means_same_attributes(old.attributes, new.attributes);
    lemma_no_child_patch_means_equal(old.children, new.children, n, addr);
}

/// Pairs of children without patches are pairwise equal.
pub proof fn lemma_no_child_patch_means_equal(
    old: Seq<ChildView>,
    new: Seq<ChildView>,
    n: nat,
    addr: int,
)
    requires
        n <= old.len(),
        n <= new.len(),
        children_diff(old, new, n, addr).len() == 0,
    ensures
        children_equal(old, new, n),
    decreases old, n,
{
    if n > 0 {
        lemma_no_child_patch_means_equal(old, new, (n - 1) as nat, addr);
        let at = child_address(old, (n - 1) as nat, addr);
        assert(child_diff(old[n - 1], new[n - 1], at).len() == 0);
        match (old[n - 1], new[n - 1]) {
            (ChildView::Node(o), ChildView::Node(m)) => {
                lemma_no_patch_means_equal(o, m, at);
            },
            _ => {},
        }
        assert(child_equal(old[n - 1], new[n - 1]));
    }
}

/// Every snapshot is equal to itself.
pub proof fn lemma_node_equal_reflexive(a: NodeView)
    ensures
        node_equal(a, a),
    decreases a, 0nat,
{
    lemma_children_equal_reflexive(a.children, a.children.len());
}

/// Every list of children is pairwise equal to itself.
pub proof fn lemma_children_equal_reflexive(cs: Seq<ChildView>, n: nat)
    requires
        n <= cs.len(),
    ensures
        children_equal(cs, cs, n),
    decreases cs, n,
{
    if n > 0 {
        lemma_children_equal_reflexive(cs, (n - 1) as nat);
        match cs[n - 1] {
            ChildView::Node(c) => {
                lemma_node_equal_reflexive(c);
            },
            _ => {},
        }
        assert(child_equal(cs[n - 1], cs[n - 1]));
    }
}

/// Two ascending lists, the second starting where the first ends or later,
/// join to an ascending list.
proof fn lemma_join_ascending(a: Seq<PatchView>, b: Seq<PatchView>, lo: int, mid: int, hi: int)
    requires
        ascending(a),
        ascending(b),
        within(a, lo, mid),
        within(b, mid, hi),
        lo <= mid <= hi,
    ensures
        ascending(a + b),
        within(a + b, lo, hi),
{
    let ab = a + b;
    assert forall|i: int| 0 <= i < ab.len() implies lo <= (#[trigger] ab[i]).node <= hi by {
        if i < a.len() {
            assert(ab[i] == a[i]);
        } else {
            assert(ab[i] == b[i - a.len()]);
        }
    }
    assert forall|i: int, j: int| 0 <= i < j < ab.len() implies (#[trigger] ab[i]).node <= (
    #[trigger] ab[j]).node by {
        if j < a.len() {
            assert(ab[i] == a[i] && ab[j] == a[j]);
        } else if i < a.len() {
            assert(ab[i] == a[i] && ab[j] == b[j - a.len()]);
        } else {
            assert(ab[i] == b[i - a.len()] && ab[j] == b[j - a.len()]);
        }
    }
}

/// Two strictly ascending lists, the second starting after the end of the
/// first, join to a strictly ascending list.
proof fn lemma_join_strictly_ascending(
    a: Seq<PatchView>,
    b: Seq<PatchView>,
    lo: int,
    mid: int,
    hi: int,
)
    requires
        strictly_ascending(a),
        strictly_ascending(b),
        within(a, lo, mid),
        within(b, mid + 1, hi),
        lo <= mid <= hi,
    ensures
        strictly_ascending(a + b),
        within(a + b, lo, hi),
{
    let ab = a + b;
    assert forall|i: int| 0 <= i < ab.len() implies lo <= (#[trigger] ab[i]).node <= hi by {
        if i < a.len() {
            assert(ab[i] == a[i]);
        } else {
            assert(ab[i] == b[i - a.len()]);
        }
    }
    assert forall|i: int, j: int| 0 <= i < j < ab.len() implies (#[trigger] ab[i]).node < (
    #[trigger] ab[j]).node by {
        if j < a.len() {
            assert(ab[i] == a[i] && ab[j] == a[j]);
        } else if i < a.len() {
            assert(ab[i] == a[i] && ab[j] == b[j - a.len()]);
        } else {
            assert(ab[i] == b[i - a.len()] && ab[j] == b[j - a.len()]);
        }
    }
}

/// Every patch of a diff carries the pre-order place of a node of the old
/// tree, and the patches come in the order of their addresses: none names a
/// node before the node of an earlier patch.
pub proof fn lemma_diff_addresses_ascend(old: NodeView, new: NodeView, addr: int)
    ensures
        ascending(node_diff(old, new, addr)),
        within(node_diff(old, new, addr), addr, addr + size(old) - 1),
    decreases old, 0nat,
{
    if old.tag == new.tag {
        let n = shared_len(old.children.len(), new.children.len());
        let own = addressed(attribute_edits(old.attributes, new.attributes), addr) + addressed(
            arity_edits(old.children, new.children),
            addr,
        );
        let below = children_diff(old.children, new.children, n, addr);
        lemma_children_addresses_ascend(old.children, new.children, n, addr);
        crate::node::lemma_forest_size_grows(old.children, n, old.children.len());
        assert(within(own, addr, addr));
        assert(ascending(own));
        assert(within(below, addr, addr + size(old) - 1));
        lemma_join_ascending(own, below, addr, addr, addr + size(old) - 1);
    }
}

/// The patches for the first `n` pairs of children come in the order of their
/// addresses, all at places of the first `n` old children.
pub proof fn lemma_children_addresses_ascend(
    old: Seq<ChildView>,
    new: Seq<ChildView>,
    n: nat,
    addr: int,
)
    requires
        n <= old.len(),
        n <= new.len(),
    ensures
        ascending(children_diff(old, new, n, addr)),
        within(children_diff(old, new, n, addr), addr + 1, addr + forest_size(old, n)),
    decreases old, n,
{
    if n > 0 {
        lemma_children_addresses_ascend(old, new, (n - 1) as nat, addr);
        let before = children_diff(old, new, (n - 1) as nat, addr);
        let at = child_address(old, (n - 1) as nat, addr);
        let here = child_diff(old[n - 1], new[n - 1], at);
        lemma_child_addresses_ascend(old[n - 1], new[n - 1], at);
        assert(forest_size(old, n) == forest_size(old, (n - 1) as nat) + child_size(old[n - 1]));
        assert(within(before, addr + 1, at));
        lemma_join_ascending(before, here, addr + 1, at, addr + forest_size(old, n));
    }
}

/// The patches for one pair of children come in the order of their
/// addresses, all at places of the old child.
pub proof fn lemma_child_addresses_ascend(old: ChildView, new: ChildView, addr: int)
    ensures
        ascending(child_diff(old, new, addr)),
        within(child_diff(old, new, addr), addr, addr + child_size(old) - 1),
    decreases old, 1nat,
{
    match (old, new) {
        (ChildView::Node(o), ChildView::Node(m)) => {
            lemma_diff_addresses_ascend(o, m, addr);
        },
        _ => {},
    }
}

/// Where no compared element gets more than one patch of its own, each patch
/// of the diff names a node after the node of the patch before it.
pub proof fn lemma_diff_addresses_strictly_ascend(old: NodeView, new: NodeView, addr: int)
    requires
        one_edit_each(old, new),
    ensures
        strictly_ascending(node_diff(old, new, addr)),
    decreases old, 0nat,
{
    if old.tag == new.tag {
        let n = shared_len(old.children.len(), new.children.len());
        let own = addressed(attribute_edits(old.attributes, new.attributes), addr) + addressed(
            arity_edits(old.children, new.children),
            addr,
        );
        let below = children_diff(old.children, new.children, n, addr);
        lemma_children_addresses_strictly_ascend(old.children, new.children, n, addr);
        lemma_children_addresses_ascend(old.children, new.children, n, addr);
        assert(own.len() <= 1);
        assert(within(own, addr, addr));
        assert(strictly_ascending(own));
        lemma_join_strictly_ascending(
            own,
            below,
            addr,
            addr,
            addr + 1 + forest_size(old.children, n),
        );
    }
}

/// `lemma_diff_addresses_strictly_ascend` for the first `n` pairs of children.
pub proof fn lemma_children_addresses_strictly_ascend(
    old: Seq<ChildView>,
    new: Seq<ChildView>,
    n: nat,
    addr: int,
)
    requires
        n <= old.len(),
        n <= new.len(),
        children_one_edit_each(old, new, n),
    ensures
        strictly_ascending(children_diff(old, new, n, addr)),
    decreases old, n,
{
    if n > 0 {
        lemma_children_addresses_strictly_ascend(old, new, (n - 1) as nat, addr);
        lemma_children_addresses_ascend(old, new, (n - 1) as nat, addr);
        let before = children_diff(old, new, (n - 1) as nat, addr);
        let at = child_address(old, (n - 1) as nat, addr);
        let here = child_diff(old[n - 1], new[n - 1], at);
        lemma_child_addresses_ascend(old[n - 1], new[n - 1], at);
        match (old[n - 1], new[n - 1]) {
            (ChildView::Node(o), ChildView::Node(m)) => {
                lemma_diff_addresses_strictly_ascend(o, m, at);
            },
            _ => {},
        }
        assert(strictly_ascending(here));
        assert(within(before, addr, at - 1));
        lemma_join_strictly_ascending(before, here, addr, at - 1, at + child_size(old[n - 1]));
    }
}

} // verus!
