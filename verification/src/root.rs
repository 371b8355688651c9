//! Making live nodes from snapshots, and the render root that owns the live
//! tree between updates.

use crate::apply::{apply, apply_fault, applied};
use crate::attribute::AttrView;
use crate::component::{Callback, Component, Fault};
use crate::diff::{diff, node_diff};
use crate::dom::{fresh_element, fresh_text, Dom};
use crate::events::ListenerView;
use crate::mirror::mirrors;
use crate::node::{size, Child, ChildView, Node, NodeView};
use crate::reconcile::{lemma_apply_reconciles, reconcilable};
use crate::tree::{tree_ok, with_attribute, with_child_at, with_listener, LiveView};
use vstd::prelude::*;

verus! {

/// The arena after the first `n` of `attrs` were stored on `id`, in order.
pub open spec fn with_attributes(d: Seq<LiveView>, id: usize, attrs: Seq<AttrView>, n: nat) -> Seq<
    LiveView,
>
    decreases n,
{
    if n == 0 || n > attrs.len() {
        d
    } else {
        with_attribute(with_attributes(d, id, attrs, (n - 1) as nat), id, attrs[n - 1])
    }
}

/// The arena after the first `n` of `listeners` were installed on `id`, in
/// order.
pub open spec fn with_listeners(
    d: Seq<LiveView>,
    id: usize,
    listeners: Seq<ListenerView>,
    n: nat,
) -> Seq<LiveView>
    decreases n,
{
    if n == 0 || n > listeners.len() {
        d
    } else {
        with_listener(with_listeners(d, id, listeners, (n - 1) as nat), id, listeners[n - 1])
    }
}

/// The arena after a live element was made for the snapshot `n`. The element
/// gets the next free number; its attributes are stored, then its children
/// are made and appended one after the other, then its listeners installed.
pub open spec fn materialized(d: Seq<LiveView>, n: NodeView) -> Seq<LiveView>
    decreases n, 0nat,
{
    let id = d.len() as usize;
    let made = d.push(fresh_element(n.tag));
    let dressed = with_attributes(made, id, n.attributes, n.attributes.len());
    let filled = with_children_made(dressed, id, n.children, n.children.len());
    with_listeners(filled, id, n.listeners, n.listeners.len())
}

/// The arena after a live node was made for the child `c`, attached nowhere.
pub open spec fn child_materialized(d: Seq<LiveView>, c: ChildView) -> Seq<LiveView>
    decreases c, 1nat,
{
    match c {
        ChildView::Text(s) => d.push(fresh_text(s)),
        ChildView::Node(n) => materialized(d, n),
    }
}

/// The arena after live nodes were made for the first `k` of `cs` and
/// appended to `id`, in order.
pub open spec fn with_children_made(d: Seq<LiveView>, id: usize, cs: Seq<ChildView>, k: nat) -> Seq<
    LiveView,
>
    decreases cs, k,
{
    if k == 0 || k > cs.len() {
        d
    } else {
        let before = with_children_made(d, id, cs, (k - 1) as nat);
        let made = child_materialized(before, cs[k - 1]);
        with_child_at(made, id, made[id as int].children.len() as int, before.len() as usize)
    }
}

/// The nodes that were there before `e` grew out of `d` are as they were,
/// but for `id`, which is still a parentless element.
pub open spec fn grown_under(d: Seq<LiveView>, e: Seq<LiveView>, id: usize) -> bool {
    &&& d.len() <= e.len()
    &&& id < e.len()
    &&& e[id as int].text is None
    &&& e[id as int].parent == d[id as int].parent
    &&& forall|x: int| 0 <= x < d.len() && x != id ==> e[x] == d[x]
}

/// Makes the live nodes for the children `cs` and appends them to the
/// element `id`, in order.
pub fn append_children(dom: &mut Dom, id: usize, cs: &[Child])
    requires
        old(dom).wf(),
        id < old(dom)@.len(),
        old(dom)@[id as int].text is None,
    ensures
        final(dom).wf(),
        final(dom)@ == with_children_made(
            old(dom)@,
            id,
            crate::node::children_view(cs@),
            cs@.len(),
        ),
        grown_under(old(dom)@, final(dom)@, id),
    decreases cs@, 0nat,
{
    let ghost d0 = dom@;
    let ghost views = crate::node::children_view(cs@);
    let mut i: usize = 0;
    while i < cs.len()
        invariant
            i <= cs.len(),
            views == crate::node::children_view(cs@),
            dom.wf(),
            id < d0.len(),
            dom@ == with_children_made(d0, id, views, i as nat),
            grown_under(d0, dom@, id),
        decreases cs.len() - i,
    {
        let ghost before = dom@;
        let fresh = match &cs[i] {
            Child::Text(text) => dom.create_text_node(text.as_str()),
            Child::Node(node) => create_element(dom, node),
        };
        let ghost made = dom@;
        proof {
            assert(views[i as int] == crate::node::child_view(cs@[i as int]));
            assert(made == child_materialized(before, views[i as int]));
            assert(made[id as int] == before[id as int]);
        }
        let attached = dom.append_child(id, fresh);
        proof {
            assert(attached is Ok);
        }
        i += 1;
    }
}

/// Makes the live nodes for the snapshot `vnode`, attached nowhere, and
/// returns the number of the element at their top.
pub fn create_element(dom: &mut Dom, vnode: &Node) -> (id: usize)
    requires
        old(dom).wf(),
    ensures
        final(dom).wf(),
        id == old(dom)@.len(),
        final(dom)@ == materialized(old(dom)@, vnode@),
        final(dom)@.len() > old(dom)@.len(),
        final(dom)@[id as int].parent is None,
        final(dom)@[id as int].text is None,
        forall|x: int| 0 <= x < old(dom)@.len() ==> final(dom)@[x] == old(dom)@[x],
    decreases vnode, 1nat,
{
    let ghost d0 = dom@;
    let id = dom.create_element(vnode.tag.as_str());
    let ghost made = dom@;

    let mut i: usize = 0;
    while i < vnode.attributes.len()
        invariant
            i <= vnode.attributes.len(),
            dom.wf(),
            id == d0.len(),
            made == d0.push(fresh_element(vnode@.tag)),
            dom@ == with_attributes(made, id, vnode@.attributes, i as nat),
            grown_under(made, dom@, id),
            dom@[id as int].children.len() == 0,
        decreases vnode.attributes.len() - i,
    {
        let attr = &vnode.attributes[i];
        assert(vnode@.attributes[i as int] == attr@);
        let stored = dom.set_attribute(id, attr);
        proof {
            assert(stored is Ok);
        }
        i += 1;
    }
    let ghost dressed = dom@;

    let kids = vnode.children.as_slice();
    proof {
        assert(crate::node::children_view(kids@) =~= vnode@.children);
    }
    append_children(dom, id, kids);
    let ghost filled = dom@;

    let mut j: usize = 0;
    while j < vnode.listeners.len()
        invariant
            j <= vnode.listeners.len(),
            dom.wf(),
            id == d0.len(),
            id < filled.len(),
            dom@ == with_listeners(filled, id, vnode@.listeners, j as nat),
            grown_under(filled, dom@, id),
        decreases vnode.listeners.len() - j,
    {
        let listener = vnode.listeners[j].duplicate();
        assert(vnode@.listeners[j as int] == listener@);
        let installed = dom.add_listener(id, listener);
        proof {
            assert(installed is Ok);
        }
        j += 1;
    }
    id
}

/// A render root: the live tree, the node of it that the application is
/// mounted on, the snapshot that the live tree was last brought to, and the
/// mark of an update that is running.
#[derive(Debug)]
pub struct Root {
    vnode: Node,
    dom: Dom,
    target: usize,
    updating: bool,
}

/// The snapshot that a root starts from: an empty `div`.
pub open spec fn blank() -> NodeView {
    NodeView {
        tag: "div"@,
        attributes: Seq::empty(),
        children: Seq::empty(),
        listeners: Seq::empty(),
    }
}

/// What an update cycle that ends with the snapshot `next` leaves of the
/// live tree, and the fault if it cannot be drawn: the diff of the last
/// snapshot and `next`, applied under the target.
pub open spec fn redrawn(live: Seq<LiveView>, snapshot: NodeView, target: usize, next: NodeView)
    -> (Seq<LiveView>, Option<Fault>) {
    if size(snapshot) > i32::MAX {
        (live, Some(Fault::TooLarge))
    } else {
        let out = applied(live, target, node_diff(snapshot, next, 0));
        match out.1 {
            Some(e) => (out.0, Some(Fault::Apply(e))),
            None => (out.0, None),
        }
    }
}

/// A live tree that matches the last snapshot can be brought to every
/// snapshot that the last one can be reconciled with, and matches it then.
pub proof fn lemma_in_step_draws(
    live: Seq<LiveView>,
    snapshot: NodeView,
    target: usize,
    next: NodeView,
)
    requires
        tree_ok(live),
        mirrors(live, target, ChildView::Node(snapshot)),
        reconcilable(snapshot, next),
        size(snapshot) <= i32::MAX,
        live.len() + size(next) <= usize::MAX,
    ensures
        redrawn(live, snapshot, target, next).1 is None,
        tree_ok(redrawn(live, snapshot, target, next).0),
        mirrors(redrawn(live, snapshot, target, next).0, target, ChildView::Node(next)),
{
    lemma_apply_reconciles(live, target, snapshot, next);
}

impl Root {
    /// The live tree under the target matches the last snapshot.
    pub open spec fn in_step(&self) -> bool {
        mirrors(self.live(), self.target(), ChildView::Node(self.snapshot()))
    }

    /// The root stays in step over a cycle that ends with the snapshot
    /// `next`: it is in step, `next` can be reconciled with the last
    /// snapshot, and the arena has room for the nodes to make.
    pub open spec fn keeps_step(&self, next: NodeView) -> bool {
        &&& self.in_step()
        &&& reconcilable(self.snapshot(), next)
        &&& self.live().len() + size(next) <= usize::MAX
    }

    /// What an update cycle of this root that ends with the snapshot `next`
    /// leaves: see [`redrawn`].
    pub open spec fn after(&self, next: NodeView) -> (Seq<LiveView>, Option<Fault>) {
        redrawn(self.live(), self.snapshot(), self.target(), next)
    }

    /// The live tree.
    pub closed spec fn live(&self) -> Seq<LiveView> {
        self.dom@
    }

    /// The snapshot that the live tree was last brought to.
    pub closed spec fn snapshot(&self) -> NodeView {
        self.vnode@
    }

    /// The live node that the application is mounted on.
    pub closed spec fn target(&self) -> usize {
        self.target
    }

    /// An update is running.
    pub closed spec fn updating(&self) -> bool {
        self.updating
    }

    /// The live tree keeps its invariant.
    pub open spec fn wf(&self) -> bool {
        tree_ok(self.live())
    }

    /// A root mounted on the node `target` of `dom`, with an empty `div` as
    /// its snapshot and no update running.
    pub fn mount(dom: Dom, target: usize) -> (r: Root)
        requires
            dom.wf(),
        ensures
            r.wf(),
            r.live() == dom@,
            r.target() == target,
            r.snapshot() == blank(),
            !r.updating(),
            mirrors(dom@, target, ChildView::Node(blank())) ==> r.in_step(),
    {
        Root { vnode: Node::new("div"), dom, target, updating: false }
    }

    /// The live node that the application is mounted on.
    pub fn mount_point(&self) -> (r: usize)
        ensures
            r == self.target(),
    {
        self.target
    }

    /// The live tree, to look at.
    pub fn dom(&self) -> (r: &Dom)
        ensures
            r@ == self.live(),
    {
        &self.dom
    }

    /// The snapshot that the live tree was last brought to.
    pub fn vnode(&self) -> (r: &Node)
        ensures
            r@ == self.snapshot(),
    {
        &self.vnode
    }

    /// Whether an update is running: the test to make before `begin_update`
    /// and `send`.
    pub fn is_updating(&self) -> (r: bool)
        ensures
            r == self.updating(),
    {
        self.updating
    }

    /// Takes hold of the root for one update. A root that is held cannot be
    /// taken again.
    pub fn begin_update(&mut self)
        requires
            !old(self).updating(),
        ensures
            final(self).live() == old(self).live(),
            final(self).snapshot() == old(self).snapshot(),
            final(self).target() == old(self).target(),
            final(self).updating(),
    {
        self.updating = true;
    }

    /// Looks at the handle once the component's `update` has returned. If a
    /// message was sent through it during the update, the cycle is given up:
    /// the root is let go, and neither the live tree nor the snapshot is
    /// touched. Otherwise the root stays held, for the redraw.
    pub fn close_update<Msg>(&mut self, recur: &Callback<Msg>) -> (r: Result<(), Fault>)
        ensures
            final(self).live() == old(self).live(),
            final(self).snapshot() == old(self).snapshot(),
            final(self).target() == old(self).target(),
            r == if recur.refused().len() > 0 {
                Err::<(), Fault>(Fault::Reentrant)
            } else {
                Ok::<(), Fault>(())
            },
            final(self).updating() == (old(self).updating() && recur.refused().len() == 0),
    {
        if recur.violated() {
            self.updating = false;
            Err(Fault::Reentrant)
        } else {
            Ok(())
        }
    }

    /// Why the live tree cannot be brought to the snapshot `next`, if it
    /// cannot: the test to make before `redraw` and `finish_update`. Nothing
    /// is touched.
    pub fn draw_fault(&self, next: &Node) -> (r: Option<Fault>)
        requires
            self.wf(),
        ensures
            r == self.after(next@).1,
    {
        if !self.vnode.fits() {
            return Some(Fault::TooLarge);
        }
        let patches = diff(&self.vnode, next);
        match apply_fault(&self.dom, self.target, &patches) {
            Some(e) => Some(Fault::Apply(e)),
            None => None,
        }
    }

    /// Brings the live tree from the last snapshot to `next`: the diff of the
    /// two is computed and applied under the target, and `next` becomes the
    /// snapshot. `next` must be a snapshot that can be drawn: see
    /// `draw_fault`.
    pub fn redraw(&mut self, next: Node)
        requires
            old(self).wf(),
            old(self).after(next@).1 is None,
        ensures
            final(self).wf(),
            final(self).target() == old(self).target(),
            final(self).updating() == old(self).updating(),
            final(self).live() == old(self).after(next@).0,
            final(self).snapshot() == next@,
            old(self).keeps_step(next@) ==> final(self).in_step(),
    {
        proof {
            if self.keeps_step(next@) {
                lemma_in_step_draws(self.live(), self.snapshot(), self.target(), next@);
            }
        }
        let patches = diff(&self.vnode, &next);
        apply(&mut self.dom, self.target, patches);
        self.vnode = next;
    }

    /// Ends the update that holds the root: the live tree is brought to the
    /// snapshot `next`, and the root is let go.
    pub fn finish_update(&mut self, next: Node)
        requires
            old(self).wf(),
            old(self).after(next@).1 is None,
        ensures
            final(self).wf(),
            final(self).target() == old(self).target(),
            !final(self).updating(),
            final(self).live() == old(self).after(next@).0,
            final(self).snapshot() == next@,
            old(self).keeps_step(next@) ==> final(self).in_step(),
    {
        self.redraw(next);
        self.updating = false;
    }

    /// One update cycle: the root is taken, the component takes the message
    /// while the root holds the handle, and the live tree is brought to the
    /// component's new snapshot. The root must be free. What the component
    /// does decides how the cycle ends: it is given up, with the live tree
    /// and the snapshot as they were, when the component sent a message
    /// through the handle during its update, or when its new snapshot cannot
    /// be drawn.
    pub fn send<Msg, C: Component<Msg>>(
        &mut self,
        comp: &mut C,
        msg: Msg,
        recur: &mut Callback<Msg>,
    ) -> (r: Result<(), Fault>)
        requires
            old(self).wf(),
            !old(self).updating(),
        ensures
            final(self).wf(),
            final(self).target() == old(self).target(),
            !final(self).updating(),
            !final(recur).held(),
            old(self).keeps_step(final(self).snapshot()) ==> final(self).in_step(),
            match r {
                Ok(()) => final(recur).refused().len() == 0 && exists|next: NodeView|
                    (#[trigger] old(self).after(next)).1 is None && final(self).live() == old(
                        self,
                    ).after(next).0 && final(self).snapshot() == next,
                Err(e) => {
                    &&& final(self).live() == old(self).live()
                    &&& final(self).snapshot() == old(self).snapshot()
                    &&& if final(recur).refused().len() > 0 {
                        e == Fault::Reentrant
                    } else {
                        exists|next: NodeView| (#[trigger] old(self).after(next)).1 == Some(e)
                    }
                },
            },
    {
        self.begin_update();
        recur.hold();
        comp.update(msg, recur);
        recur.release();
        match self.close_update(recur) {
            Ok(()) => {},
            Err(e) => {
                return Err(e);
            },
        }
        let next = comp.view();
        let ghost shown = next@;
        match self.draw_fault(&next) {
            Some(e) => {
                self.updating = false;
                proof {
                    assert(old(self).after(shown).1 == Some(e));
                }
                Err(e)
            },
            None => {
                self.finish_update(next);
                proof {
                    assert(old(self).after(shown).1 is None);
                }
                Ok(())
            },
        }
    }
}

/// Mounts a component on the node `target` of `dom` and brings the live tree
/// to the component's first snapshot, if that snapshot can be drawn.
pub fn render<Msg, C: Component<Msg>>(comp: &C, dom: Dom, target: usize) -> (r: Result<
    Root,
    Fault,
>)
    requires
        dom.wf(),
    ensures
        match r {
            Ok(root) => {
                &&& root.wf()
                &&& root.target() == target
                &&& !root.updating()
                &&& exists|next: NodeView|
                    (#[trigger] redrawn(dom@, blank(), target, next)).1 is None && root.live()
                        == redrawn(dom@, blank(), target, next).0 && root.snapshot() == next
                &&& mirrors(dom@, target, ChildView::Node(blank())) && reconcilable(
                    blank(),
                    root.snapshot(),
                ) && dom@.len() + size(root.snapshot()) <= usize::MAX ==> root.in_step()
            },
            Err(e) => exists|next: NodeView|
                (#[trigger] redrawn(dom@, blank(), target, next)).1 == Some(e),
        },
{
    let mut root = Root::mount(dom, target);
    let next = comp.view();
    let ghost shown = next@;
    match root.draw_fault(&next) {
        Some(e) => {
            proof {
                assert(redrawn(dom@, blank(), target, shown).1 == Some(e));
            }
            Err(e)
        },
        None => {
            root.redraw(next);
            proof {
                assert(redrawn(dom@, blank(), target, shown).1 is None);
            }
            Ok(root)
        },
    }
}

} // verus!
