//! The patch applier: each patch's address is resolved to a live node in one
//! forward walk over the tree as it stands, then the patches are executed in
//! order.

use crate::diff::{bound_list, patch_list, Operation, OperationView, Patch, PatchView};
use crate::dom::{refusal_to_store, Dom, DomError};
use crate::dom_iterator::DomIterator;
use crate::root::{append_children, create_element, materialized, with_children_made};
use crate::tree::{parent_of, preorder, with_attribute, with_child_at, with_child_replaced};
use crate::tree::{with_text_content, without_attribute, without_child, LiveView};
use vstd::prelude::*;

verus! {

/// Why a list of patches cannot be applied. These are faults of the caller,
/// not outcomes: the functions that apply patches leave them out by their
/// `requires`, and the functions that test for them name them.
#[derive(Debug, Clone, Copy, PartialEq, Eq, Structural)]
pub enum ApplyError {
    /// A patch names an address that the walk over the live tree never
    /// reaches.
    OutOfNodes,
    /// A node without a parent was to be replaced.
    MissingParent,
    /// More children were to be removed than the node has.
    TooFewChildren,
    /// The live tree refused an operation.
    Refused(DomError),
}

/// The place in the pre-order that the walk has reached once patch `i` is
/// resolved: the walk starts at 0 and only moves forward, up to the address
/// of each patch in turn.
pub open spec fn cursor(patches: Seq<PatchView>, i: int) -> int
    decreases i + 1,
{
    if i < 0 || i >= patches.len() {
        0
    } else {
        let before = cursor(patches, i - 1);
        if before < patches[i].node {
            patches[i].node
        } else {
            before
        }
    }
}

/// Whether the walk over `order` reaches the address of every patch.
pub open spec fn reachable(order: Seq<usize>, patches: Seq<PatchView>) -> bool {
    patches.len() == 0 || cursor(patches, patches.len() - 1) < order.len()
}

/// The patches, each bound to the live node that the walk over `order` stood
/// at when the patch was resolved.
pub open spec fn resolved(order: Seq<usize>, patches: Seq<PatchView>) -> Seq<PatchView> {
    Seq::new(
        patches.len(),
        |i: int| PatchView { node: order[cursor(patches, i)] as int, operation: patches[i].operation },
    )
}

/// The arena after the last `k` children of `id` were detached, last first.
pub open spec fn released_last(d: Seq<LiveView>, id: usize, k: nat) -> Seq<LiveView>
    decreases k,
{
    if k == 0 {
        d
    } else {
        let before = released_last(d, id, (k - 1) as nat);
        without_child(before, id, before[id as int].children.last())
    }
}

/// The number of children of `id`; 0 where `id` names no node.
pub open spec fn child_count_of(d: Seq<LiveView>, id: usize) -> nat {
    if id < d.len() {
        d[id as int].children.len()
    } else {
        0
    }
}

/// What one edit of the live node `node` leaves: the arena, and the error if
/// the edit failed.
pub open spec fn patched(d: Seq<LiveView>, node: usize, op: OperationView) -> (
    Seq<LiveView>,
    Option<ApplyError>,
) {
    match op {
        OperationView::ReplaceNode(v) => match parent_of(d, node) {
            None => (d, Some(ApplyError::MissingParent)),
            Some(p) => (with_child_replaced(materialized(d, v), p, d.len() as usize, node), None),
        },
        OperationView::ReplaceText(s) => if node >= d.len() {
            (d, Some(ApplyError::Refused(DomError::NoSuchNode)))
        } else {
            (with_text_content(d, node, s), None)
        },
        OperationView::RemoveAttribute(a) => match refusal_to_store(d, node) {
            Some(e) => (d, Some(ApplyError::Refused(e))),
            None => (without_attribute(d, node, a.kind, a.key), None),
        },
        OperationView::SetAttribute(a) => match refusal_to_store(d, node) {
            Some(e) => (d, Some(ApplyError::Refused(e))),
            None => (with_attribute(d, node, a), None),
        },
        OperationView::RemoveLast(count) => {
            let have = child_count_of(d, node);
            if 0 <= count <= have {
                (released_last(d, node, count as nat), None)
            } else {
                (released_last(d, node, have), Some(ApplyError::TooFewChildren))
            }
        },
        OperationView::Append(cs) => if cs.len() == 0 {
            (d, None)
        } else {
            match refusal_to_store(d, node) {
                Some(e) => (d, Some(ApplyError::Refused(e))),
                None => (with_children_made(d, node, cs, cs.len()), None),
            }
        },
        OperationView::Insert(at, v) => match refusal_to_store(d, node) {
            Some(e) => (d, Some(ApplyError::Refused(e))),
            None => (with_child_at(materialized(d, v), node, at, d.len() as usize), None),
        },
    }
}

/// What the first `n` bound patches leave when they are executed in order,
/// stopping at the first that fails.
pub open spec fn run(d: Seq<LiveView>, bound: Seq<PatchView>, n: nat) -> (
    Seq<LiveView>,
    Option<ApplyError>,
)
    decreases n,
{
    if n == 0 || n > bound.len() {
        (d, None)
    } else {
        let before = run(d, bound, (n - 1) as nat);
        if before.1 is Some {
            before
        } else {
            patched(before.0, bound[n - 1].node as usize, bound[n - 1].operation)
        }
    }
}

/// What applying `patches` to the subtree under `root` leaves. No patch, no
/// change. Otherwise every address is resolved against the tree as it stands,
/// which fails without any change where the walk runs out of nodes; then the
/// patches are executed in order.
pub open spec fn applied(d: Seq<LiveView>, root: usize, patches: Seq<PatchView>) -> (
    Seq<LiveView>,
    Option<ApplyError>,
) {
    if patches.len() == 0 {
        (d, None)
    } else if root >= d.len() {
        (d, Some(ApplyError::Refused(DomError::NoSuchNode)))
    } else if !reachable(preorder(d, root), patches) {
        (d, Some(ApplyError::OutOfNodes))
    } else {
        run(d, resolved(preorder(d, root), patches), patches.len())
    }
}

/// The walk never moves back.
pub proof fn lemma_cursor_grows(patches: Seq<PatchView>, i: int, j: int)
    requires
        -1 <= i <= j < patches.len(),
    ensures
        0 <= cursor(patches, i) <= cursor(patches, j),
    decreases j - i,
{
    if i < j {
        lemma_cursor_grows(patches, i, j - 1);
    } else {
        lemma_cursor_not_negative(patches, i);
    }
}

/// The walk starts at 0 and stays there or beyond.
pub proof fn lemma_cursor_not_negative(patches: Seq<PatchView>, i: int)
    ensures
        0 <= cursor(patches, i),
    decreases i + 1,
{
    if 0 <= i < patches.len() {
        lemma_cursor_not_negative(patches, i - 1);
    }
}

/// Where among the children of `node` an insertion at `at` goes: before the
/// child at that position, or after the last child where there is no such
/// position.
pub open spec fn slot_of(d: Seq<LiveView>, node: usize, at: int) -> int {
    if 0 <= at <= child_count_of(d, node) {
        at
    } else {
        child_count_of(d, node) as int
    }
}

/// Where among the children of `node` an insertion at `pos` goes.
pub fn insert_slot(dom: &Dom, node: usize, pos: i32) -> (r: usize)
    ensures
        r == slot_of(dom@, node, pos as int),
{
    let len = dom.child_count(node);
    if 0 <= pos && pos as usize <= len {
        pos as usize
    } else {
        len
    }
}

/// Why the patch cannot be executed on the live tree as it stands, if it
/// cannot: the test to make before `apply_patch`.
pub fn patch_fault(dom: &Dom, patch: &Patch<'_, usize>) -> (r: Option<ApplyError>)
    ensures
        r == patched(dom@, patch.node, patch.operation@).1,
{
    let node = patch.node;
    match patch.operation {
        Operation::ReplaceNode(_) => {
            match dom.parent_node(node) {
                None => Some(ApplyError::MissingParent),
                Some(_) => None,
            }
        },
        Operation::ReplaceText(_) => {
            if node >= dom.len() {
                Some(ApplyError::Refused(DomError::NoSuchNode))
            } else {
                None
            }
        },
        Operation::RemoveAttribute(_) | Operation::SetAttribute(_) | Operation::Insert(_, _) => {
            store_fault(dom, node)
        },
        Operation::RemoveLast(count) => {
            let have = dom.child_count(node);
            if 0 <= count && count as usize <= have {
                None
            } else {
                Some(ApplyError::TooFewChildren)
            }
        },
        Operation::Append(children) => {
            if children.len() == 0 {
                None
            } else {
                store_fault(dom, node)
            }
        },
    }
}

/// Why nothing can be stored on or attached to `node`, if nothing can.
fn store_fault(dom: &Dom, node: usize) -> (r: Option<ApplyError>)
    ensures
        r == match refusal_to_store(dom@, node) {
            Some(e) => Some(ApplyError::Refused(e)),
            None => None,
        },
{
    if node >= dom.len() {
        Some(ApplyError::Refused(DomError::NoSuchNode))
    } else if dom.is_text(node) {
        Some(ApplyError::Refused(DomError::NotAnElement))
    } else {
        None
    }
}

/// Executes one patch on the live node it is bound to. The patch must be one
/// that can be executed: see `patch_fault`.
pub fn apply_patch(dom: &mut Dom, patch: Patch<'_, usize>)
    requires
        old(dom).wf(),
        patched(old(dom)@, patch.node, patch.operation@).1 is None,
    ensures
        final(dom).wf(),
        final(dom)@ == patched(old(dom)@, patch.node, patch.operation@).0,
{
    let node = patch.node;
    match patch.operation {
        Operation::ReplaceNode(vnode) => {
            match dom.parent_node(node) {
                None => {},
                Some(parent) => {
                    let fresh = create_element(dom, vnode);
                    let replaced = dom.replace_child(parent, fresh, node);
                    proof {
                        assert(crate::tree::node_ok(old(dom)@, node as int));
                        assert(replaced is Ok);
                    }
                },
            }
        },
        Operation::RemoveAttribute(attr) => {
            let removed = dom.remove_attribute(node, attr.kind, &attr.key);
        },
        Operation::SetAttribute(attr) => {
            let stored = dom.set_attribute(node, attr);
        },
        Operation::ReplaceText(text) => {
            let set = dom.set_text_content(node, text);
        },
        Operation::RemoveLast(count) => {
            let take = count as usize;
            let ghost d0 = dom@;
            let ghost have = child_count_of(d0, node);
            let mut done: usize = 0;
            while done < take
                invariant
                    done <= take <= have,
                    dom.wf(),
                    have == child_count_of(d0, node),
                    dom@ == released_last(d0, node, done as nat),
                    child_count_of(dom@, node) == have - done,
                    dom@.len() == d0.len(),
                decreases take - done,
            {
                match dom.last_child(node) {
                    Some(last) => {
                        proof {
                            assert(crate::tree::node_ok(dom@, node as int));
                            assert(dom@[node as int].children.last() == dom@[node as int].children[
                                dom@[node as int].children.len() - 1
                            ]);
                            crate::tree::lemma_release_keeps_tree(dom@, node, last);
                            crate::tree::lemma_only_index(
                                dom@[node as int].children,
                                last,
                                dom@[node as int].children.len() - 1,
                            );
                        }
                        let released = dom.remove_child(node, last);
                        proof {
                            assert(released is Ok);
                        }
                    },
                    None => {},
                }
                done += 1;
            }
        },
        Operation::Append(children) => {
            if children.len() > 0 {
                append_children(dom, node, children);
            }
        },
        Operation::Insert(pos, vnode) => {
            let slot = insert_slot(dom, node, pos);
            let fresh = create_element(dom, vnode);
            let inserted = dom.insert_child(node, slot, fresh);
            proof {
                assert(inserted is Ok);
            }
        },
    }
}

/// Whether the walk over the subtree under `root` reaches the address of
/// every patch: the test to make before `resolve`. A list without patches
/// asks nothing of the tree.
#[verifier::loop_isolation(false)]
pub fn reaches(dom: &Dom, root: usize, patches: &Vec<Patch<'_, i32>>) -> (r: bool)
    requires
        dom.wf(),
    ensures
        r == (patches@.len() == 0 || (root < dom@.len() && reachable(
            preorder(dom@, root),
            patch_list(patches@),
        ))),
{
    if patches.len() == 0 {
        return true;
    }
    if root >= dom.len() {
        return false;
    }
    let ghost views = patch_list(patches@);
    let mut furthest: i32 = 0;
    let mut i: usize = 0;
    while i < patches.len()
        invariant
            i <= patches.len(),
            views == patch_list(patches@),
            0 <= furthest,
            furthest == cursor(views, i - 1),
        decreases patches.len() - i,
    {
        assert(views[i as int] == patches@[i as int]@);
        if furthest < patches[i].node {
            furthest = patches[i].node;
        }
        i += 1;
    }
    let ghost order = preorder(dom@, root);
    let mut nodes = DomIterator::new(root);
    proof {
        assert(crate::tree::under(dom@, root, root));
    }
    let mut seen: usize = 0;
    while seen <= furthest as usize
        invariant
            0 <= furthest,
            nodes.wf(dom@),
            nodes.root() == root,
            nodes.visited() == seen,
            seen <= furthest + 1,
            seen <= order.len(),
            order == preorder(dom@, root),
        decreases furthest + 1 - seen,
    {
        match nodes.next(dom) {
            Some(_) => {
                seen += 1;
            },
            None => {
                return false;
            },
        }
    }
    true
}

/// Binds each patch to the live node at its address, by one walk over the
/// subtree under `root` as it stands. The walk only moves forward: a patch
/// whose address lies behind the walk is bound to the node that the walk
/// stands at. With no patch, the live tree is not looked at. Every address
/// must be one that the walk reaches: see `reaches`.
#[verifier::loop_isolation(false)]
pub fn resolve<'node>(dom: &Dom, root: usize, patches: Vec<Patch<'node, i32>>) -> (bound: Vec<
    Patch<'node, usize>,
>)
    requires
        dom.wf(),
        patches@.len() > 0 ==> root < dom@.len() && reachable(
            preorder(dom@, root),
            patch_list(patches@),
        ),
    ensures
        bound_list(bound@) == resolved(preorder(dom@, root), patch_list(patches@)),
{
    let mut with_nodes: Vec<Patch<'node, usize>> = Vec::with_capacity(patches.len());
    let ghost d0 = dom@;
    let ghost order = preorder(d0, root);
    let ghost views = patch_list(patches@);
    if patches.len() == 0 {
        assert(bound_list(with_nodes@) =~= resolved(order, views));
        return with_nodes;
    }
    let mut nodes = DomIterator::new(root);
    proof {
        assert(crate::tree::under(d0, root, root));
    }
    let mut current_node = match nodes.next(dom) {
        Some(node) => node,
        None => root,
    };
    let mut node_index: usize = 0;

    let mut i: usize = 0;
    while i < patches.len()
        invariant
            i <= patches.len(),
            nodes.wf(d0),
            nodes.root() == root,
            nodes.visited() == node_index + 1,
            node_index < order.len(),
            current_node == order[node_index as int],
            node_index == cursor(views, i - 1),
            bound_list(with_nodes@) == resolved(order, views).take(i as int),
        decreases patches.len() - i,
    {
        let patch = Patch { node: patches[i].node, operation: patches[i].operation };
        assert(views[i as int] == patch@);
        proof {
            lemma_cursor_grows(views, i as int, views.len() - 1);
        }
        while 0 < patch.node && node_index < patch.node as usize
            invariant
                nodes.wf(d0),
                nodes.root() == root,
                nodes.visited() == node_index + 1,
                node_index < order.len(),
                current_node == order[node_index as int],
                cursor(views, i - 1) <= node_index,
                node_index <= cursor(views, i as int),
            decreases patch.node - node_index,
        {
            match nodes.next(dom) {
                Some(next_node) => {
                    current_node = next_node;
                    node_index += 1;
                },
                None => {
                    // The walk reaches every address, so it has not run out.
                    assert(node_index < cursor(views, views.len() - 1));
                },
            }
        }
        let ghost before = bound_list(with_nodes@);
        with_nodes.push(patch.at(current_node));
        proof {
            assert(node_index == cursor(views, i as int));
            assert(bound_list(with_nodes@) =~= before.push(resolved(order, views)[i as int]));
            assert(resolved(order, views).take(i + 1) =~= resolved(order, views).take(
                i as int,
            ).push(resolved(order, views)[i as int]));
        }
        i += 1;
    }
    proof {
        assert(resolved(order, views).take(patches.len() as int) =~= resolved(order, views));
    }
    with_nodes
}

/// A copy of the patches.
fn copy_patches<'node>(patches: &Vec<Patch<'node, i32>>) -> (r: Vec<Patch<'node, i32>>)
    ensures
        patch_list(r@) == patch_list(patches@),
{
    let mut r: Vec<Patch<'node, i32>> = Vec::with_capacity(patches.len());
    let mut i: usize = 0;
    while i < patches.len()
        invariant
            i <= patches.len(),
            patch_list(r@) == patch_list(patches@).take(i as int),
        decreases patches.len() - i,
    {
        let ghost before = patch_list(r@);
        r.push(Patch { node: patches[i].node, operation: patches[i].operation });
        assert(patch_list(r@) =~= before.push(patches@[i as int]@));
        assert(patch_list(patches@).take(i + 1) =~= patch_list(patches@).take(i as int).push(
            patches@[i as int]@,
        ));
        i += 1;
    }
    assert(patch_list(patches@).take(patches@.len() as int) =~= patch_list(patches@));
    r
}

/// Why the patches cannot be applied to the subtree under `root`, if they
/// cannot: the test to make before `apply`. The live tree is not touched;
/// the patches are tried on a copy of it.
#[verifier::loop_isolation(false)]
pub fn apply_fault(dom: &Dom, root: usize, patches: &Vec<Patch<'_, i32>>) -> (r: Option<
    ApplyError,
>)
    requires
        dom.wf(),
    ensures
        r == applied(dom@, root, patch_list(patches@)).1,
{
    if patches.len() == 0 {
        return None;
    }
    if root >= dom.len() {
        return Some(ApplyError::Refused(DomError::NoSuchNode));
    }
    if !reaches(dom, root, patches) {
        return Some(ApplyError::OutOfNodes);
    }
    let ghost d0 = dom@;
    let ghost views = patch_list(patches@);
    let with_nodes = resolve(dom, root, copy_patches(patches));
    let ghost bound = bound_list(with_nodes@);
    proof {
        assert(bound.len() == views.len());
        assert(applied(d0, root, views) == run(d0, bound, bound.len()));
    }
    let mut trial = dom.duplicate();
    let mut j: usize = 0;
    while j < with_nodes.len()
        invariant
            j <= with_nodes.len(),
            trial.wf(),
            bound == bound_list(with_nodes@),
            run(d0, bound, j as nat) == (trial@, None::<ApplyError>),
        decreases with_nodes.len() - j,
    {
        let patch = Patch { node: with_nodes[j].node, operation: with_nodes[j].operation };
        assert(bound[j as int] == patch@);
        match patch_fault(&trial, &patch) {
            Some(e) => {
                proof {
                    lemma_run_stops(d0, bound, (j + 1) as nat, bound.len());
                }
                return Some(e);
            },
            None => {},
        }
        apply_patch(&mut trial, patch);
        j += 1;
    }
    None
}

/// Applies `patches` to the subtree under `root`. With no patch, the live
/// tree is not touched. Otherwise every patch is first bound to the live node
/// at its address, by one walk over the tree as it stands; then the patches
/// are executed in order. The patches must be ones that can be applied: see
/// `apply_fault`.
#[verifier::loop_isolation(false)]
pub fn apply(dom: &mut Dom, root: usize, patches: Vec<Patch<'_, i32>>)
    requires
        old(dom).wf(),
        applied(old(dom)@, root, patch_list(patches@)).1 is None,
    ensures
        final(dom).wf(),
        final(dom)@ == applied(old(dom)@, root, patch_list(patches@)).0,
{
    if patches.len() == 0 {
        return ;
    }
    let ghost d0 = dom@;
    let ghost views = patch_list(patches@);
    let with_nodes = resolve(dom, root, patches);
    let ghost bound = bound_list(with_nodes@);
    proof {
        assert(bound.len() == views.len());
        assert(applied(d0, root, views) == run(d0, bound, bound.len()));
    }

    let mut j: usize = 0;
    while j < with_nodes.len()
        invariant
            j <= with_nodes.len(),
            dom.wf(),
            bound == bound_list(with_nodes@),
            run(d0, bound, j as nat) == (dom@, None::<ApplyError>),
        decreases with_nodes.len() - j,
    {
        let patch = Patch { node: with_nodes[j].node, operation: with_nodes[j].operation };
        assert(bound[j as int] == patch@);
        proof {
            if patched(dom@, patch.node, patch.operation@).1 is Some {
                lemma_run_stops(d0, bound, (j + 1) as nat, bound.len());
            }
        }
        apply_patch(dom, patch);
        j += 1;
    }
}

/// Once a patch has failed, the later ones change nothing.
pub proof fn lemma_run_stops(d: Seq<LiveView>, bound: Seq<PatchView>, n: nat, m: nat)
    requires
        n <= m <= bound.len(),
        run(d, bound, n).1 is Some,
    ensures
        run(d, bound, m) == run(d, bound, n),
    decreases m,
{
    if n < m {
        lemma_run_stops(d, bound, n, (m - 1) as nat);
    }
}

} // verus!
