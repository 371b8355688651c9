//! The diff engine: two snapshots in, an address-ordered list of patches out.

use crate::attribute::{attrs_view, find_attribute, lemma_position_of, lookup, position_of};
use crate::attribute::{Attr, AttrView};
use crate::node::{child_size, child_view, children_view, forest_size, size};
use crate::node::lemma_forest_size_grows;
use crate::node::{Child, ChildView, Node, NodeView};
use vstd::prelude::*;
use vstd::slice::slice_subrange;

verus! {

/// One edit of a live node. The payloads are borrowed from the new snapshot.
#[derive(Debug, Clone, Copy, PartialEq)]
pub enum Operation<'node> {
    /// Replace the node and everything below it by a newly made subtree.
    ReplaceNode(&'node Node),
    /// Replace the text of the node.
    ReplaceText(&'node str),
    /// Remove one attribute of the element.
    RemoveAttribute(&'node Attr),
    /// Set one attribute of the element.
    SetAttribute(&'node Attr),
    /// Remove this many children from the end.
    RemoveLast(i32),
    /// Append these children.
    Append(&'node [Child]),
    /// Make a subtree and insert it at this position among the children.
    Insert(i32, &'node Node),
}

/// An edit together with the node it is for. `K` is how the node is named:
/// by its address in the pre-order numbering, or by a handle of the live tree.
#[derive(Debug, PartialEq)]
pub struct Patch<'node, K> {
    pub node: K,
    pub operation: Operation<'node>,
}

/// The mathematical value of an [`Operation`].
pub enum OperationView {
    ReplaceNode(NodeView),
    ReplaceText(Seq<char>),
    RemoveAttribute(AttrView),
    SetAttribute(AttrView),
    RemoveLast(int),
    Append(Seq<ChildView>),
    Insert(int, NodeView),
}

/// The mathematical value of a [`Patch`]: the number that names the node, and
/// the edit.
pub struct PatchView {
    pub node: int,
    pub operation: OperationView,
}

impl<'node> View for Operation<'node> {
    type V = OperationView;

    open spec fn view(&self) -> OperationView {
        match *self {
            Operation::ReplaceNode(n) => OperationView::ReplaceNode(n@),
            Operation::ReplaceText(s) => OperationView::ReplaceText(s@),
            Operation::RemoveAttribute(a) => OperationView::RemoveAttribute(a@),
            Operation::SetAttribute(a) => OperationView::SetAttribute(a@),
            Operation::RemoveLast(n) => OperationView::RemoveLast(n as int),
            Operation::Append(cs) => OperationView::Append(children_view(cs@)),
            Operation::Insert(at, n) => OperationView::Insert(at as int, n@),
        }
    }
}

impl<'node> View for Patch<'node, i32> {
    type V = PatchView;

    open spec fn view(&self) -> PatchView {
        PatchView { node: self.node as int, operation: self.operation@ }
    }
}

impl<'node> View for Patch<'node, usize> {
    type V = PatchView;

    open spec fn view(&self) -> PatchView {
        PatchView { node: self.node as int, operation: self.operation@ }
    }
}

/// The views of a list of addressed patches, in order.
pub open spec fn patch_list(patches: Seq<Patch<'_, i32>>) -> Seq<PatchView> {
    Seq::new(patches.len(), |i: int| patches[i]@)
}

/// The views of a list of patches that are bound to live nodes, in order.
pub open spec fn bound_list(patches: Seq<Patch<'_, usize>>) -> Seq<PatchView> {
    Seq::new(patches.len(), |i: int| patches[i]@)
}

/// The edit `operation` for the node named `node`.
pub open spec fn patch_at(node: int, operation: OperationView) -> PatchView {
    PatchView { node, operation }
}

/// The edits that the first `n` attributes of `old` give rise to. An attribute
/// counts where its name first occurs: one that `new` lacks is removed, one
/// that `new` holds otherwise is set anew.
pub open spec fn stale_edits(old: Seq<AttrView>, new: Seq<AttrView>, n: nat) -> Seq<OperationView>
    decreases n,
{
    if n == 0 || n > old.len() {
        Seq::empty()
    } else {
        let before = stale_edits(old, new, (n - 1) as nat);
        if position_of(old, old[n - 1].key) != n - 1 {
            before
        } else {
            match lookup(new, old[n - 1].key) {
                None => before.push(OperationView::RemoveAttribute(old[n - 1])),
                Some(now) => if now != old[n - 1] {
                    before.push(OperationView::SetAttribute(now))
                } else {
                    before
                },
            }
        }
    }
}

/// The edits that the first `n` attributes of `new` give rise to. An attribute
/// counts where its name first occurs: one that `old` lacks is set.
pub open spec fn fresh_edits(old: Seq<AttrView>, new: Seq<AttrView>, n: nat) -> Seq<OperationView>
    decreases n,
{
    if n == 0 || n > new.len() {
        Seq::empty()
    } else {
        let before = fresh_edits(old, new, (n - 1) as nat);
        if position_of(new, new[n - 1].key) == n - 1 && lookup(old, new[n - 1].key) is None {
            before.push(OperationView::SetAttribute(new[n - 1]))
        } else {
            before
        }
    }
}

/// The attribute edits of one element: for each name that either side holds,
/// a removal where only `old` holds it, a setting where only `new` holds it or
/// where the two differ, and nothing where they agree.
pub open spec fn attribute_edits(old: Seq<AttrView>, new: Seq<AttrView>) -> Seq<OperationView> {
    stale_edits(old, new, old.len()) + fresh_edits(old, new, new.len())
}

/// The edits, each as a patch for the node at `addr`.
pub open spec fn addressed(edits: Seq<OperationView>, addr: int) -> Seq<PatchView> {
    Seq::new(edits.len(), |i: int| patch_at(addr, edits[i]))
}

/// The attribute patches of one element, all at the element's own address.
pub open spec fn attribute_patches(old: Seq<AttrView>, new: Seq<AttrView>, addr: int) -> Seq<
    PatchView,
> {
    addressed(attribute_edits(old, new), addr)
}

/// The edit for a change in the number of children: surplus old children are
/// removed from the end, surplus new ones appended.
pub open spec fn arity_edits(old: Seq<ChildView>, new: Seq<ChildView>) -> Seq<OperationView> {
    if old.len() > new.len() {
        seq![OperationView::RemoveLast(old.len() - new.len())]
    } else if old.len() < new.len() {
        seq![OperationView::Append(new.subrange(old.len() as int, new.len() as int))]
    } else {
        Seq::empty()
    }
}

/// The patch for a change in the number of children, at the parent's address.
pub open spec fn arity_patches(old: Seq<ChildView>, new: Seq<ChildView>, addr: int) -> Seq<
    PatchView,
> {
    addressed(arity_edits(old, new), addr)
}

/// The smaller of two lengths.
pub open spec fn shared_len(a: nat, b: nat) -> nat {
    if a <= b {
        a
    } else {
        b
    }
}

/// The diff of two elements that stand at address `addr`.
///
/// Elements of different tags are not compared further: the new one replaces
/// the old. Otherwise the element's own patches come first (attributes, then
/// the change in the number of children), then those of the children that
/// both have, pair by pair.
pub open spec fn node_diff(old: NodeView, new: NodeView, addr: int) -> Seq<PatchView>
    decreases old, 0nat,
{
    if old.tag != new.tag {
        seq![patch_at(addr, OperationView::ReplaceNode(new))]
    } else {
        attribute_patches(old.attributes, new.attributes, addr) + arity_patches(
            old.children,
            new.children,
            addr,
        ) + children_diff(
            old.children,
            new.children,
            shared_len(old.children.len(), new.children.len()),
            addr,
        )
    }
}

/// The address of child `j` of an element at `addr`: its place in the
/// pre-order, after the element and the live nodes of the children before it.
pub open spec fn child_address(old: Seq<ChildView>, j: nat, addr: int) -> int {
    addr + 1 + forest_size(old, j)
}

/// The diff of the first `n` pairs of children under a parent at address
/// `addr`, each pair at the address of the old child.
pub open spec fn children_diff(old: Seq<ChildView>, new: Seq<ChildView>, n: nat, addr: int) -> Seq<
    PatchView,
>
    decreases old, n,
{
    if n == 0 || n > old.len() || n > new.len() {
        Seq::empty()
    } else {
        children_diff(old, new, (n - 1) as nat, addr) + child_diff(
            old[n - 1],
            new[n - 1],
            child_address(old, (n - 1) as nat, addr),
        )
    }
}

/// The diff of one pair of children at address `addr`. Two elements are
/// compared as elements; two texts give a patch when they differ; a pair of
/// different kinds gives the patch that puts the new child in place.
pub open spec fn child_diff(old: ChildView, new: ChildView, addr: int) -> Seq<PatchView>
    decreases old, 1nat,
{
    match (old, new) {
        (ChildView::Node(o), ChildView::Node(n)) => node_diff(o, n, addr),
        (ChildView::Text(s), ChildView::Text(t)) => if s != t {
            seq![patch_at(addr, OperationView::ReplaceText(t))]
        } else {
            Seq::empty()
        },
        (_, ChildView::Text(t)) => seq![patch_at(addr, OperationView::ReplaceText(t))],
        (_, ChildView::Node(n)) => seq![patch_at(addr, OperationView::ReplaceNode(n))],
    }
}

/// The live nodes of a list are those of its first `n` children and those of
/// the rest.
pub proof fn lemma_forest_split(cs: Seq<ChildView>, n: nat)
    requires
        n <= cs.len(),
    ensures
        forest_size(cs, cs.len()) == forest_size(cs, n) + forest_size(
            cs.subrange(n as int, cs.len() as int),
            (cs.len() - n) as nat,
        ),
{
    lemma_forest_split_upto(cs, n, cs.len());
}

/// The live nodes of the first `m` children are those of the first `n` and
/// those of the next `m - n`.
pub proof fn lemma_forest_split_upto(cs: Seq<ChildView>, n: nat, m: nat)
    requires
        n <= m <= cs.len(),
    ensures
        forest_size(cs, m) == forest_size(cs, n) + forest_size(
            cs.subrange(n as int, cs.len() as int),
            (m - n) as nat,
        ),
    decreases m,
{
    let rest = cs.subrange(n as int, cs.len() as int);
    if m > n {
        lemma_forest_split_upto(cs, n, (m - 1) as nat);
        assert(rest[m - n - 1] == cs[m - 1]);
    }
}

impl<'node> Operation<'node> {
    /// The patch that carries this edit to the node at address `index`.
    pub fn at(self, index: &i32) -> (r: Patch<'node, i32>)
        ensures
            r@ == patch_at(*index as int, self@),
    {
        Patch { node: *index, operation: self }
    }
}

impl<'node, K> Patch<'node, K> {
    /// The same edit for the node named `node`: this is how a patch that was
    /// addressed by number is bound to a handle of the live tree.
    pub fn at<K2>(self, node: K2) -> (r: Patch<'node, K2>)
        ensures
            r.node == node,
            r.operation == self.operation,
    {
        Patch { node, operation: self.operation }
    }
}

/// The number of live nodes that the children stand for, with all that is
/// below them.
pub fn count_children(children: &[Child]) -> (r: i32)
    requires
        forest_size(children_view(children@), children@.len()) <= i32::MAX,
    ensures
        r == forest_size(children_view(children@), children@.len()),
    decreases children@,
{
    let ghost cs = children_view(children@);
    let mut count: i32 = 0;
    let mut i: usize = 0;
    while i < children.len()
        invariant
            i <= children.len(),
            cs == children_view(children@),
            count == forest_size(cs, i as nat),
            forest_size(cs, children@.len()) <= i32::MAX,
        decreases children.len() - i,
    {
        proof {
            lemma_forest_size_grows(cs, (i + 1) as nat, children@.len());
            assert(cs[i as int] == child_view(children@[i as int]));
            assert(forest_size(cs, (i + 1) as nat) == forest_size(cs, i as nat) + child_size(
                cs[i as int],
            ));
        }
        let below: i32 = match &children[i] {
            Child::Text(_) => 0,
            Child::Node(node) => {
                let below = node.children.as_slice();
                assert(children_view(below@) =~= node@.children);
                count_children(below)
            },
        };
        count = count + 1 + below;
        i += 1;
    }
    count
}

/// Appends the attribute patches of one element at address `index`.
fn diff_attributes<'root, 'node: 'root>(
    old_node: &'node Node,
    new_node: &'node Node,
    patches: &mut Vec<Patch<'root, i32>>,
    index: &i32,
)
    ensures
        patch_list(final(patches)@) == patch_list(old(patches)@) + attribute_patches(
            old_node@.attributes,
            new_node@.attributes,
            *index as int,
        ),
{
    let ghost base = patch_list(patches@);
    let ghost ov = old_node@.attributes;
    let ghost nv = new_node@.attributes;
    let ghost addr = *index as int;
    let mut i: usize = 0;
    while i < old_node.attributes.len()
        invariant
            i <= old_node.attributes.len(),
            ov == attrs_view(old_node.attributes@),
            nv == attrs_view(new_node.attributes@),
            addr == *index as int,
            patch_list(patches@) == base + addressed(stale_edits(ov, nv, i as nat), addr),
        decreases old_node.attributes.len() - i,
    {
        let was = &old_node.attributes[i];
        assert(ov[i as int] == was@);
        let ghost before = patch_list(patches@);
        let ghost edits = stale_edits(ov, nv, i as nat);
        let first = find_attribute(&old_node.attributes, &was.key);
        proof {
            lemma_position_of(ov, was@.key);
        }
        if first == Some(i) {
            match find_attribute(&new_node.attributes, &was.key) {
                None => {
                    patches.push(Operation::RemoveAttribute(was).at(index));
                    let ghost edit = OperationView::RemoveAttribute(was@);
                    assert(patch_list(patches@) =~= before.push(patch_at(addr, edit)));
                    assert(addressed(edits.push(edit), addr) =~= addressed(edits, addr).push(
                        patch_at(addr, edit),
                    ));
                },
                Some(at) => {
                    let now = &new_node.attributes[at];
                    assert(lookup(nv, was@.key) == Some(now@));
                    if !was.same(now) {
                        patches.push(Operation::SetAttribute(now).at(index));
                        let ghost edit = OperationView::SetAttribute(now@);
                        assert(patch_list(patches@) =~= before.push(patch_at(addr, edit)));
                        assert(addressed(edits.push(edit), addr) =~= addressed(edits, addr).push(
                            patch_at(addr, edit),
                        ));
                    }
                },
            }
        }
        i += 1;
    }
    let ghost stale = stale_edits(ov, nv, ov.len());
    let mut j: usize = 0;
    assert(addressed(stale + fresh_edits(ov, nv, 0), addr) =~= addressed(stale, addr));
    while j < new_node.attributes.len()
        invariant
            j <= new_node.attributes.len(),
            ov == attrs_view(old_node.attributes@),
            nv == attrs_view(new_node.attributes@),
            addr == *index as int,
            stale == stale_edits(ov, nv, ov.len()),
            patch_list(patches@) == base + addressed(
                stale + fresh_edits(ov, nv, j as nat),
                addr,
            ),
        decreases new_node.attributes.len() - j,
    {
        let now = &new_node.attributes[j];
        assert(nv[j as int] == now@);
        let ghost before = patch_list(patches@);
        let ghost edits = fresh_edits(ov, nv, j as nat);
        let first = find_attribute(&new_node.attributes, &now.key);
        let held = find_attribute(&old_node.attributes, &now.key);
        proof {
            lemma_position_of(nv, now@.key);
            lemma_position_of(ov, now@.key);
        }
        if first == Some(j) && held.is_none() {
            patches.push(Operation::SetAttribute(now).at(index));
            let ghost edit = OperationView::SetAttribute(now@);
            assert(patch_list(patches@) =~= before.push(patch_at(addr, edit)));
            assert(addressed(stale + edits.push(edit), addr) =~= addressed(stale + edits, addr).push(
                patch_at(addr, edit),
            ));
        }
        j += 1;
    }
}

/// Appends the patches for the children of one element. `index` holds the
/// element's address on entry and the address of its last old descendant on
/// return.
fn diff_children<'root, 'node: 'root>(
    old_parent: &'node Node,
    new_parent: &'node Node,
    patches: &mut Vec<Patch<'root, i32>>,
    index: &mut i32,
)
    requires
        0 <= *old(index),
        *old(index) + size(old_parent@) - 1 <= i32::MAX,
    ensures
        patch_list(final(patches)@) == patch_list(old(patches)@) + arity_patches(
            old_parent@.children,
            new_parent@.children,
            *old(index) as int,
        ) + children_diff(
            old_parent@.children,
            new_parent@.children,
            shared_len(old_parent@.children.len(), new_parent@.children.len()),
            *old(index) as int,
        ),
        *final(index) == *old(index) + size(old_parent@) - 1,
    decreases old_parent, 0nat,
{
    let ghost base = patch_list(patches@);
    let ghost addr = *index as int;
    let ghost ov = old_parent@.children;
    let ghost nv = new_parent@.children;
    let old_len = old_parent.children.len();
    let new_len = new_parent.children.len();
    proof {
        lemma_forest_at_least_len(ov, ov.len());
    }

    if old_len > new_len {
        patches.push(Operation::RemoveLast((old_len - new_len) as i32).at(index));
        assert(patch_list(patches@) =~= base.push(
            patch_at(addr, OperationView::RemoveLast(ov.len() - nv.len())),
        ));
    } else if old_len < new_len {
        let rest = slice_subrange(new_parent.children.as_slice(), old_len, new_len);
        assert(children_view(rest@) =~= nv.subrange(old_len as int, new_len as int));
        patches.push(Operation::Append(rest).at(index));
    }
    assert(patch_list(patches@) =~= base + arity_patches(ov, nv, addr));
    let ghost own = patch_list(patches@);

    let shared = if old_len < new_len {
        old_len
    } else {
        new_len
    };
    let mut i: usize = 0;
    while i < shared
        invariant
            i <= shared,
            shared == shared_len(ov.len(), nv.len()),
            ov == old_parent@.children,
            nv == new_parent@.children,
            ov.len() == old_parent.children.len(),
            nv.len() == new_parent.children.len(),
            0 <= addr,
            addr + forest_size(ov, ov.len()) <= i32::MAX,
            patch_list(patches@) == own + children_diff(ov, nv, i as nat, addr),
            *index == addr + forest_size(ov, i as nat),
        decreases shared - i,
    {
        proof {
            lemma_forest_size_grows(ov, (i + 1) as nat, ov.len());
            assert(forest_size(ov, (i + 1) as nat) == forest_size(ov, i as nat) + child_size(
                ov[i as int],
            ));
            assert(ov[i as int] == child_view(old_parent.children@[i as int]));
        }
        *index += 1;
        let ghost before = patch_list(patches@);
        let ghost here = *index as int;
        match (&old_parent.children[i], &new_parent.children[i]) {
            (Child::Node(old_node), Child::Node(new_node)) => {
                diff_node(old_node, new_node, patches, index);
            },
            (Child::Text(old_text), Child::Text(new_text)) => {
                if *old_text != *new_text {
                    patches.push(Operation::ReplaceText(new_text.as_str()).at(index));
                    assert(patch_list(patches@) =~= before.push(
                        patch_at(here, OperationView::ReplaceText(new_text@)),
                    ));
                }
            },
            (Child::Node(old_node), Child::Text(new_text)) => {
                patches.push(Operation::ReplaceText(new_text.as_str()).at(index));
                assert(patch_list(patches@) =~= before.push(
                    patch_at(here, OperationView::ReplaceText(new_text@)),
                ));
                // The walk still passes what lies below the old element.
                let below = old_node.children.as_slice();
                assert(children_view(below@) =~= old_node@.children);
                *index += count_children(below);
            },
            (Child::Text(_), Child::Node(new_node)) => {
                patches.push(Operation::ReplaceNode(new_node).at(index));
                assert(patch_list(patches@) =~= before.push(
                    patch_at(here, OperationView::ReplaceNode(new_node@)),
                ));
            },
        }
        assert(patch_list(patches@) =~= before + child_diff(ov[i as int], nv[i as int], here));
        i += 1;
    }

    if old_len > new_len {
        let surplus = slice_subrange(old_parent.children.as_slice(), new_len, old_len);
        assert(children_view(surplus@) =~= ov.subrange(new_len as int, old_len as int));
        proof {
            lemma_forest_split(ov, new_len as nat);
        }
        *index += count_children(surplus);
    }
}

/// A list of `n` children stands for at least `n` live nodes.
pub proof fn lemma_forest_at_least_len(cs: Seq<ChildView>, n: nat)
    requires
        n <= cs.len(),
    ensures
        n <= forest_size(cs, n),
    decreases n,
{
    if n > 0 {
        lemma_forest_at_least_len(cs, (n - 1) as nat);
        assert(child_size(cs[n - 1]) >= 1);
    }
}

/// Appends the patches that turn `old` into `new`. `index` holds the address
/// of the two elements on entry and the address of the last old descendant on
/// return: the walk over the live tree passes every old node, whether it was
/// compared or replaced.
fn diff_node<'root, 'node: 'root>(
    old_node: &'node Node,
    new_node: &'node Node,
    patches: &mut Vec<Patch<'root, i32>>,
    index: &mut i32,
)
    requires
        0 <= *old(index),
        *old(index) + size(old_node@) - 1 <= i32::MAX,
    ensures
        patch_list(final(patches)@) == patch_list(old(patches)@) + node_diff(
            old_node@,
            new_node@,
            *old(index) as int,
        ),
        *final(index) == *old(index) + size(old_node@) - 1,
    decreases old_node, 1nat,
{
    let ghost base = patch_list(patches@);
    if new_node.tag != old_node.tag {
        patches.push(Operation::ReplaceNode(new_node).at(index));
        assert(patch_list(patches@) =~= base.push(
            patch_at(*index as int, OperationView::ReplaceNode(new_node@)),
        ));
        let below = old_node.children.as_slice();
        assert(children_view(below@) =~= old_node@.children);
        *index += count_children(below);
        return ;
    }
    diff_attributes(old_node, new_node, patches, index);
    diff_children(old_node, new_node, patches, index);
}

/// The patches that turn a live tree which matches `old` into one that matches
/// `new`, for two elements that stand at address 0.
pub fn diff<'root>(old: &'root Node, new: &'root Node) -> (patches: Vec<Patch<'root, i32>>)
    requires
        size(old@) <= i32::MAX,
    ensures
        patch_list(patches@) == node_diff(old@, new@, 0),
{
    let mut patches: Vec<Patch<'root, i32>> = Vec::with_capacity(32);
    let mut index: i32 = 0;
    assert(patch_list(patches@) =~= Seq::empty());
    diff_node(old, new, &mut patches, &mut index);
    patches
}

} // verus!
