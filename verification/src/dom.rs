//! The live tree that patches are applied to: an arena of nodes with the
//! primitive operations of a host.

use crate::attribute::{attrs_view, Attr, AttrKind, AttrValue};
use crate::events::{listeners_view, ConcreteVListener};
use crate::tree::{first_child_of, last_child_of, next_sibling_of, node_ok, parent_of, stored};
use crate::tree::{lemma_adopt_keeps_tree, lemma_clear_keeps_tree, lemma_release_keeps_tree};
use crate::tree::{lemma_replace_keeps_tree, lemma_same_links_keep_tree};
use crate::tree::{tree_ok, with_attribute, with_child_at, with_child_replaced, LiveView};
use crate::tree::{with_children_released, with_listener, with_text_content, without_attribute};
use crate::tree::{dropped, without_child, without_listener};
use vstd::prelude::*;

verus! {

/// A live node: a text node when `text` is there, an element otherwise.
#[derive(Debug)]
pub struct LiveNode {
    parent: Option<usize>,
    children: Vec<usize>,
    text: Option<String>,
    tag: String,
    attributes: Vec<Attr>,
    listeners: Vec<ConcreteVListener>,
}

/// The live tree. A node is named by the number it got when it was made;
/// nodes are never destroyed, only detached.
#[derive(Debug)]
pub struct Dom {
    nodes: Vec<LiveNode>,
}

/// Why the live tree refused an operation.
#[derive(Debug, Clone, Copy, PartialEq, Eq, Structural)]
pub enum DomError {
    /// A number that names no node.
    NoSuchNode,
    /// A text node was asked to hold children or attributes.
    NotAnElement,
    /// The node to attach has a parent already, or was made before the
    /// element that is to hold it.
    NotAdoptable,
    /// The node to detach or replace is not a child of the element named.
    NotAChild,
}

impl LiveNode {
    /// The mathematical value of the node.
    pub closed spec fn view(&self) -> LiveView {
        LiveView {
            parent: self.parent,
            children: self.children@,
            text: match self.text {
                Some(s) => Some(s@),
                None => None,
            },
            tag: self.tag@,
            attributes: stored(attrs_view(self.attributes@)),
            listeners: listeners_view(self.listeners@),
        }
    }
}

impl View for Dom {
    type V = Seq<LiveView>;

    closed spec fn view(&self) -> Seq<LiveView> {
        Seq::new(self.nodes@.len(), |i: int| self.nodes@[i].view())
    }
}

/// An element that was just made: no parent, no children, nothing stored.
pub open spec fn fresh_element(tag: Seq<char>) -> LiveView {
    LiveView {
        parent: None,
        children: Seq::empty(),
        text: None,
        tag,
        attributes: Map::empty(),
        listeners: Seq::empty(),
    }
}

/// A text node that was just made.
pub open spec fn fresh_text(text: Seq<char>) -> LiveView {
    LiveView {
        parent: None,
        children: Seq::empty(),
        text: Some(text),
        tag: Seq::empty(),
        attributes: Map::empty(),
        listeners: Seq::empty(),
    }
}

/// Why `child` cannot be attached under `parent`, if it cannot.
pub open spec fn refusal_to_adopt(d: Seq<LiveView>, parent: usize, child: usize) -> Option<
    DomError,
> {
    if parent >= d.len() || child >= d.len() {
        Some(DomError::NoSuchNode)
    } else if d[parent as int].text is Some {
        Some(DomError::NotAnElement)
    } else if d[child as int].parent is Some || child <= parent {
        Some(DomError::NotAdoptable)
    } else {
        None
    }
}

/// Why `child` cannot be detached from `parent`, if it cannot.
pub open spec fn refusal_to_release(d: Seq<LiveView>, parent: usize, child: usize) -> Option<
    DomError,
> {
    if parent >= d.len() || child >= d.len() {
        Some(DomError::NoSuchNode)
    } else if d[child as int].parent != Some(parent) {
        Some(DomError::NotAChild)
    } else {
        None
    }
}

/// Why `fresh` cannot take the place of `stale` under `parent`, if it cannot.
pub open spec fn refusal_to_replace(d: Seq<LiveView>, parent: usize, fresh: usize, stale: usize)
    -> Option<DomError> {
    if parent >= d.len() || fresh >= d.len() || stale >= d.len() {
        Some(DomError::NoSuchNode)
    } else if d[stale as int].parent != Some(parent) {
        Some(DomError::NotAChild)
    } else if d[fresh as int].parent is Some || fresh <= parent {
        Some(DomError::NotAdoptable)
    } else {
        None
    }
}

/// Why nothing can be stored on `id`, if nothing can.
pub open spec fn refusal_to_store(d: Seq<LiveView>, id: usize) -> Option<DomError> {
    if id >= d.len() {
        Some(DomError::NoSuchNode)
    } else if d[id as int].text is Some {
        Some(DomError::NotAnElement)
    } else {
        None
    }
}

/// The arena after the first `n` children of `id` were told that they have
/// no parent.
spec fn released_upto(d: Seq<LiveView>, id: usize, n: int) -> Seq<LiveView> {
    Seq::new(
        d.len(),
        |x: int|
            if d[x].parent == Some(id) && d[id as int].children.index_of(x as usize) < n {
                LiveView { parent: None, ..d[x] }
            } else {
                d[x]
            },
    )
}

/// A copy of the settings, in order.
fn copy_attrs(attrs: &Vec<Attr>) -> (r: Vec<Attr>)
    ensures
        attrs_view(r@) == attrs_view(attrs@),
{
    let mut r: Vec<Attr> = Vec::with_capacity(attrs.len());
    let mut i: usize = 0;
    while i < attrs.len()
        invariant
            i <= attrs.len(),
            attrs_view(r@) == attrs_view(attrs@).take(i as int),
        decreases attrs.len() - i,
    {
        let ghost before = attrs_view(r@);
        r.push(attrs[i].duplicate());
        assert(attrs_view(r@) =~= before.push(attrs@[i as int]@));
        assert(attrs_view(attrs@).take(i + 1) =~= attrs_view(attrs@).take(i as int).push(
            attrs@[i as int]@,
        ));
        i += 1;
    }
    assert(attrs_view(attrs@).take(attrs@.len() as int) =~= attrs_view(attrs@));
    r
}

/// The settings of `attrs` but those of kind `kind` and name `key`.
fn without(attrs: &Vec<Attr>, kind: AttrKind, key: &String) -> (r: Vec<Attr>)
    ensures
        stored(attrs_view(r@)) == stored(attrs_view(attrs@)).remove((kind, key@)),
{
    let mut r: Vec<Attr> = Vec::new();
    let ghost all = attrs_view(attrs@);
    let mut i: usize = 0;
    assert(all.take(0) =~= Seq::empty());
    assert(attrs_view(r@) =~= Seq::empty());
    assert(stored(attrs_view(r@)) =~= stored(all.take(0)).remove((kind, key@)));
    while i < attrs.len()
        invariant
            i <= attrs.len(),
            all == attrs_view(attrs@),
            stored(attrs_view(r@)) == stored(all.take(i as int)).remove((kind, key@)),
        decreases attrs.len() - i,
    {
        let a = &attrs[i];
        let ghost before = attrs_view(r@);
        assert(all.take(i + 1).drop_last() =~= all.take(i as int));
        assert(all.take(i + 1).last() == a@);
        if !(a.kind == kind && a.key == *key) {
            r.push(a.duplicate());
            assert(attrs_view(r@).drop_last() =~= before);
            assert(attrs_view(r@).last() == a@);
            assert(stored(attrs_view(r@)) =~= stored(all.take(i + 1)).remove((kind, key@)));
        } else {
            assert(stored(attrs_view(r@)) =~= stored(all.take(i + 1)).remove((kind, key@)));
        }
        i += 1;
    }
    assert(all.take(attrs.len() as int) =~= all);
    r
}

impl Dom {
    /// The tree keeps its invariant: see [`tree_ok`].
    pub open spec fn wf(&self) -> bool {
        tree_ok(self@)
    }

    /// A live tree with no node in it.
    pub fn new() -> (r: Dom)
        ensures
            r.wf(),
            r@.len() == 0,
    {
        Dom { nodes: Vec::new() }
    }

    /// A copy of the live tree, node for node.
    pub fn duplicate(&self) -> (r: Dom)
        ensures
            r@ == self@,
    {
        let mut nodes: Vec<LiveNode> = Vec::with_capacity(self.nodes.len());
        let mut i: usize = 0;
        while i < self.nodes.len()
            invariant
                i <= self.nodes.len(),
                nodes@.len() == i,
                forall|j: int| 0 <= j < i ==> (#[trigger] nodes@[j]).view() == self.nodes@[j].view(),
            decreases self.nodes.len() - i,
        {
            let node = &self.nodes[i];
            let copy = LiveNode {
                parent: node.parent,
                children: self.child_nodes(i),
                text: match &node.text {
                    Some(t) => Some(t.clone()),
                    None => None,
                },
                tag: node.tag.clone(),
                attributes: copy_attrs(&node.attributes),
                listeners: self.listeners(i),
            };
            assert(copy.view() == node.view());
            nodes.push(copy);
            i += 1;
        }
        let r = Dom { nodes };
        assert(r@ =~= self@);
        r
    }

    /// The number of nodes ever made, attached or not.
    pub fn len(&self) -> (r: usize)
        ensures
            r == self@.len(),
    {
        self.nodes.len()
    }

    /// Makes an element of kind `tag`, attached nowhere, and returns its
    /// number.
    pub fn create_element(&mut self, tag: &str) -> (id: usize)
        requires
            old(self).wf(),
        ensures
            final(self).wf(),
            id == old(self)@.len(),
            final(self)@ == old(self)@.push(fresh_element(tag@)),
    {
        let id = self.nodes.len();
        let node = LiveNode {
            parent: None,
            children: Vec::new(),
            text: None,
            tag: tag.to_owned(),
            attributes: Vec::new(),
            listeners: Vec::new(),
        };
        proof {
            assert(attrs_view(node.attributes@) =~= Seq::empty());
            assert(node.view().listeners =~= Seq::empty());
            assert(node.view() == fresh_element(tag@));
        }
        self.nodes.push(node);
        proof {
            vstd::std_specs::vec::axiom_spec_len(&self.nodes);
            assert(self@ =~= old(self)@.push(fresh_element(tag@)));
            lemma_push_keeps_tree(old(self)@, fresh_element(tag@));
        }
        id
    }

    /// Makes a text node, attached nowhere, and returns its number.
    pub fn create_text_node(&mut self, text: &str) -> (id: usize)
        requires
            old(self).wf(),
        ensures
            final(self).wf(),
            id == old(self)@.len(),
            final(self)@ == old(self)@.push(fresh_text(text@)),
    {
        let id = self.nodes.len();
        let node = LiveNode {
            parent: None,
            children: Vec::new(),
            text: Some(text.to_owned()),
            tag: String::new(),
            attributes: Vec::new(),
            listeners: Vec::new(),
        };
        proof {
            assert(attrs_view(node.attributes@) =~= Seq::empty());
            assert(node.view().listeners =~= Seq::empty());
            assert(node.view() == fresh_text(text@));
        }
        self.nodes.push(node);
        proof {
            vstd::std_specs::vec::axiom_spec_len(&self.nodes);
            assert(self@ =~= old(self)@.push(fresh_text(text@)));
            lemma_push_keeps_tree(old(self)@, fresh_text(text@));
        }
        id
    }

    /// The parent of `id`; `None` for a node without one and for a number
    /// that names no node.
    pub fn parent_node(&self, id: usize) -> (r: Option<usize>)
        ensures
            r == parent_of(self@, id),
    {
        if id < self.nodes.len() {
            self.nodes[id].parent
        } else {
            None
        }
    }

    /// The first child of `id`, if it has one.
    pub fn first_child(&self, id: usize) -> (r: Option<usize>)
        ensures
            r == first_child_of(self@, id),
    {
        if id < self.nodes.len() && self.nodes[id].children.len() > 0 {
            Some(self.nodes[id].children[0])
        } else {
            None
        }
    }

    /// The last child of `id`, if it has one.
    pub fn last_child(&self, id: usize) -> (r: Option<usize>)
        ensures
            r == last_child_of(self@, id),
    {
        if id < self.nodes.len() && self.nodes[id].children.len() > 0 {
            let n = self.nodes[id].children.len();
            Some(self.nodes[id].children[n - 1])
        } else {
            None
        }
    }

    /// The child that follows `id` under its parent, if there is one.
    pub fn next_sibling(&self, id: usize) -> (r: Option<usize>)
        requires
            self.wf(),
        ensures
            r == next_sibling_of(self@, id),
    {
        match self.parent_node(id) {
            None => None,
            Some(p) => {
                assert(node_ok(self@, id as int));
                assert(node_ok(self@, p as int));
                let siblings = &self.nodes[p].children;
                let at = position_in(siblings, id);
                if at + 1 < siblings.len() {
                    Some(siblings[at + 1])
                } else {
                    None
                }
            },
        }
    }

    /// The children of `id` from first to last; none for a number that names
    /// no node.
    pub fn child_nodes(&self, id: usize) -> (r: Vec<usize>)
        ensures
            r@ == if id < self@.len() {
                self@[id as int].children
            } else {
                Seq::empty()
            },
    {
        let mut r: Vec<usize> = Vec::new();
        if id < self.nodes.len() {
            let kids = &self.nodes[id].children;
            let mut i: usize = 0;
            while i < kids.len()
                invariant
                    i <= kids.len(),
                    r@ == kids@.take(i as int),
                decreases kids.len() - i,
            {
                r.push(kids[i]);
                assert(kids@.take(i + 1) =~= kids@.take(i as int).push(kids@[i as int]));
                i += 1;
            }
            assert(kids@.take(kids@.len() as int) =~= kids@);
        }
        r
    }

    /// Attaches `child` under `parent`, before the child at position `at` or
    /// at the end where there is no such position. Only a node without a
    /// parent, made after `parent`, can be attached.
    pub fn insert_child(&mut self, parent: usize, at: usize, child: usize) -> (r: Result<
        (),
        DomError,
    >)
        requires
            old(self).wf(),
        ensures
            final(self).wf(),
            match refusal_to_adopt(old(self)@, parent, child) {
                Some(e) => r == Err::<(), DomError>(e) && final(self)@ == old(self)@,
                None => r is Ok && final(self)@ == with_child_at(
                    old(self)@,
                    parent,
                    at as int,
                    child,
                ),
            },
    {
        let n = self.nodes.len();
        if parent >= n || child >= n {
            return Err(DomError::NoSuchNode);
        }
        if self.nodes[parent].text.is_some() {
            return Err(DomError::NotAnElement);
        }
        if self.nodes[child].parent.is_some() || child <= parent {
            return Err(DomError::NotAdoptable);
        }
        let len = self.nodes[parent].children.len();
        let slot = if at <= len {
            at
        } else {
            len
        };
        self.nodes[parent].children.insert(slot, child);
        self.nodes[child].parent = Some(parent);
        proof {
            assert(self@ =~~= with_child_at(old(self)@, parent, at as int, child));
            lemma_adopt_keeps_tree(old(self)@, parent, at as int, child);
        }
        Ok(())
    }

    /// Attaches `child` as the last child of `parent`.
    pub fn append_child(&mut self, parent: usize, child: usize) -> (r: Result<(), DomError>)
        requires
            old(self).wf(),
        ensures
            final(self).wf(),
            match refusal_to_adopt(old(self)@, parent, child) {
                Some(e) => r == Err::<(), DomError>(e) && final(self)@ == old(self)@,
                None => r is Ok && final(self)@ == with_child_at(
                    old(self)@,
                    parent,
                    old(self)@[parent as int].children.len() as int,
                    child,
                ),
            },
    {
        let at = if parent < self.nodes.len() {
            self.nodes[parent].children.len()
        } else {
            0
        };
        self.insert_child(parent, at, child)
    }

    /// Detaches `child` from `parent`. The node stays in the arena.
    pub fn remove_child(&mut self, parent: usize, child: usize) -> (r: Result<(), DomError>)
        requires
            old(self).wf(),
        ensures
            final(self).wf(),
            match refusal_to_release(old(self)@, parent, child) {
                Some(e) => r == Err::<(), DomError>(e) && final(self)@ == old(self)@,
                None => r is Ok && final(self)@ == without_child(old(self)@, parent, child),
            },
    {
        let n = self.nodes.len();
        if parent >= n || child >= n {
            return Err(DomError::NoSuchNode);
        }
        let holder = self.nodes[child].parent;
        let held = match holder {
            Some(p) => p == parent,
            None => false,
        };
        if !held {
            return Err(DomError::NotAChild);
        }
        proof {
            lemma_release_keeps_tree(self@, parent, child);
            assert(node_ok(self@, parent as int));
        }
        let at = position_in(&self.nodes[parent].children, child);
        self.nodes[parent].children.remove(at);
        self.nodes[child].parent = None;
        proof {
            assert(self@ =~~= without_child(old(self)@, parent, child));
        }
        Ok(())
    }

    /// Puts `fresh` in the place of `stale` among the children of `parent`,
    /// and detaches `stale`.
    pub fn replace_child(&mut self, parent: usize, fresh: usize, stale: usize) -> (r: Result<
        (),
        DomError,
    >)
        requires
            old(self).wf(),
        ensures
            final(self).wf(),
            match refusal_to_replace(old(self)@, parent, fresh, stale) {
                Some(e) => r == Err::<(), DomError>(e) && final(self)@ == old(self)@,
                None => r is Ok && final(self)@ == with_child_replaced(
                    old(self)@,
                    parent,
                    fresh,
                    stale,
                ),
            },
    {
        let n = self.nodes.len();
        if parent >= n || fresh >= n || stale >= n {
            return Err(DomError::NoSuchNode);
        }
        let holder = self.nodes[stale].parent;
        let held = match holder {
            Some(p) => p == parent,
            None => false,
        };
        if !held {
            return Err(DomError::NotAChild);
        }
        if self.nodes[fresh].parent.is_some() || fresh <= parent {
            return Err(DomError::NotAdoptable);
        }
        proof {
            lemma_release_keeps_tree(self@, parent, stale);
            lemma_replace_keeps_tree(self@, parent, fresh, stale);
            assert(node_ok(self@, parent as int));
        }
        let at = position_in(&self.nodes[parent].children, stale);
        self.nodes[parent].children.set(at, fresh);
        self.nodes[stale].parent = None;
        self.nodes[fresh].parent = Some(parent);
        proof {
            assert(self@ =~~= with_child_replaced(old(self)@, parent, fresh, stale));
        }
        Ok(())
    }

    /// Stores `attr` on the element `id`, in place of what was stored under
    /// its kind and name.
    pub fn set_attribute(&mut self, id: usize, attr: &Attr) -> (r: Result<(), DomError>)
        requires
            old(self).wf(),
        ensures
            final(self).wf(),
            match refusal_to_store(old(self)@, id) {
                Some(e) => r == Err::<(), DomError>(e) && final(self)@ == old(self)@,
                None => r is Ok && final(self)@ == with_attribute(old(self)@, id, attr@),
            },
    {
        if id >= self.nodes.len() {
            return Err(DomError::NoSuchNode);
        }
        if self.nodes[id].text.is_some() {
            return Err(DomError::NotAnElement);
        }
        let mut kept = without(&self.nodes[id].attributes, attr.kind, &attr.key);
        let ghost before = attrs_view(kept@);
        kept.push(attr.duplicate());
        proof {
            assert(attrs_view(kept@).drop_last() =~= before);
            assert(attrs_view(kept@).last() == attr@);
            assert(stored(attrs_view(kept@)) =~= old(self)@[id as int].attributes.insert(
                (attr@.kind, attr@.key),
                attr@.value,
            ));
        }
        self.nodes[id].attributes = kept;
        proof {
            assert(self@ =~~= with_attribute(old(self)@, id, attr@));
            lemma_same_links_keep_tree(old(self)@, self@);
        }
        Ok(())
    }

    /// Removes what is stored on the element `id` under `kind` and `key`.
    pub fn remove_attribute(&mut self, id: usize, kind: AttrKind, key: &String) -> (r: Result<
        (),
        DomError,
    >)
        requires
            old(self).wf(),
        ensures
            final(self).wf(),
            match refusal_to_store(old(self)@, id) {
                Some(e) => r == Err::<(), DomError>(e) && final(self)@ == old(self)@,
                None => r is Ok && final(self)@ == without_attribute(old(self)@, id, kind, key@),
            },
    {
        if id >= self.nodes.len() {
            return Err(DomError::NoSuchNode);
        }
        if self.nodes[id].text.is_some() {
            return Err(DomError::NotAnElement);
        }
        let kept = without(&self.nodes[id].attributes, kind, key);
        self.nodes[id].attributes = kept;
        proof {
            assert(self@ =~~= without_attribute(old(self)@, id, kind, key@));
            lemma_same_links_keep_tree(old(self)@, self@);
        }
        Ok(())
    }

    /// Installs `listener` on the element `id`.
    pub fn add_listener(&mut self, id: usize, listener: ConcreteVListener) -> (r: Result<
        (),
        DomError,
    >)
        requires
            old(self).wf(),
        ensures
            final(self).wf(),
            match refusal_to_store(old(self)@, id) {
                Some(e) => r == Err::<(), DomError>(e) && final(self)@ == old(self)@,
                None => r is Ok && final(self)@ == with_listener(old(self)@, id, listener@),
            },
    {
        if id >= self.nodes.len() {
            return Err(DomError::NoSuchNode);
        }
        if self.nodes[id].text.is_some() {
            return Err(DomError::NotAnElement);
        }
        let ghost before = listeners_view(self.nodes[id as int].listeners@);
        self.nodes[id].listeners.push(listener);
        proof {
            assert(listeners_view(self.nodes[id as int].listeners@) =~= before.push(listener@));
            assert(self@ =~~= with_listener(old(self)@, id, listener@));
            lemma_same_links_keep_tree(old(self)@, self@);
        }
        Ok(())
    }

    /// Takes the listeners equal to `listener` off the element `id`.
    pub fn remove_listener(&mut self, id: usize, listener: &ConcreteVListener) -> (r: Result<
        (),
        DomError,
    >)
        requires
            old(self).wf(),
        ensures
            final(self).wf(),
            match refusal_to_store(old(self)@, id) {
                Some(e) => r == Err::<(), DomError>(e) && final(self)@ == old(self)@,
                None => r is Ok && final(self)@ == without_listener(old(self)@, id, listener@),
            },
    {
        if id >= self.nodes.len() {
            return Err(DomError::NoSuchNode);
        }
        if self.nodes[id].text.is_some() {
            return Err(DomError::NotAnElement);
        }
        let held = &self.nodes[id].listeners;
        let ghost all = listeners_view(held@);
        let mut kept: Vec<ConcreteVListener> = Vec::new();
        let mut i: usize = 0;
        assert(all.take(0) =~= Seq::empty());
        assert(listeners_view(kept@) =~= Seq::empty());
        while i < held.len()
            invariant
                i <= held.len(),
                all == listeners_view(held@),
                listeners_view(kept@) == dropped(all.take(i as int), listener@),
            decreases held.len() - i,
        {
            let ghost before = listeners_view(kept@);
            assert(all.take(i + 1).drop_last() =~= all.take(i as int));
            assert(all.take(i + 1).last() == held@[i as int]@);
            if !(held[i].event == listener.event && held[i].handler == listener.handler) {
                kept.push(held[i].duplicate());
                assert(listeners_view(kept@) =~= before.push(held@[i as int]@));
            }
            i += 1;
        }
        assert(all.take(held@.len() as int) =~= all);
        self.nodes[id].listeners = kept;
        proof {
            assert(self@ =~~= without_listener(old(self)@, id, listener@));
            lemma_same_links_keep_tree(old(self)@, self@);
        }
        Ok(())
    }

    /// Sets the text content of `id`. A text node takes the text. An element
    /// loses its children and, unless the text is empty, gets a new text node
    /// as its only child.
    pub fn set_text_content(&mut self, id: usize, text: &str) -> (r: Result<(), DomError>)
        requires
            old(self).wf(),
        ensures
            final(self).wf(),
            if id >= old(self)@.len() {
                r == Err::<(), DomError>(DomError::NoSuchNode) && final(self)@ == old(self)@
            } else {
                r is Ok && final(self)@ == with_text_content(old(self)@, id, text@)
            },
    {
        if id >= self.nodes.len() {
            return Err(DomError::NoSuchNode);
        }
        let ghost d0 = self@;
        if self.nodes[id].text.is_some() {
            self.nodes[id].text = Some(text.to_owned());
            proof {
                assert(self@ =~~= with_text_content(d0, id, text@));
                lemma_same_links_keep_tree(d0, self@);
            }
            return Ok(());
        }
        let kids = self.child_nodes(id);
        let mut i: usize = 0;
        proof {
            assert forall|x: int| 0 <= x < d0.len() implies self@[x] == released_upto(d0, id, 0)[x] by {
                assert(node_ok(d0, x));
            }
            assert(self@ =~~= released_upto(d0, id, 0));
        }
        while i < kids.len()
            invariant
                i <= kids.len(),
                tree_ok(d0),
                id < d0.len(),
                kids@ == d0[id as int].children,
                self@ == released_upto(d0, id, i as int),
            decreases kids.len() - i,
        {
            let c = kids[i];
            proof {
                assert(node_ok(d0, id as int));
                assert(c == d0[id as int].children[i as int]);
                assert(c < d0.len());
                assert(self@.len() == d0.len());
                crate::tree::lemma_only_index(kids@, c, i as int);
            }
            let ghost before = self@;
            self.nodes[c].parent = None;
            proof {
                let after = released_upto(d0, id, i + 1);
                assert(self@.len() == d0.len());
                assert forall|x: int| 0 <= x < d0.len() implies self@[x] == after[x] by {
                    assert(node_ok(d0, x));
                    if x == c {
                        assert(before[x] == d0[x]);
                    } else {
                        assert(self@[x] == before[x]);
                        if d0[x].parent == Some(id) {
                            let at = kids@.index_of(x as usize);
                            assert(kids@[at] == x);
                        }
                    }
                }
                assert(self@ =~~= after);
            }
            i += 1;
        }
        let ghost before = self@;
        self.nodes[id].children.clear();
        proof {
            assert(self@.len() == d0.len());
            assert forall|x: int| 0 <= x < d0.len() implies self@[x] == with_children_released(
                d0,
                id,
            )[x] by {
                assert(node_ok(d0, x));
                assert(node_ok(d0, id as int));
                if x != id {
                    assert(self@[x] == before[x]);
                    if d0[x].parent == Some(id) {
                        let at = kids@.index_of(x as usize);
                        assert(kids@[at] == x);
                    }
                } else {
                    assert(before[x] == d0[x]);
                }
            }
            assert(self@ =~~= with_children_released(d0, id));
            lemma_clear_keeps_tree(d0, id);
        }
        if text.is_empty() {
            return Ok(());
        }
        let fresh = self.create_text_node(text);
        self.insert_child(id, 0, fresh)
    }

    /// The number of children of `id`; 0 for a number that names no node.
    pub fn child_count(&self, id: usize) -> (r: usize)
        ensures
            r == if id < self@.len() {
                self@[id as int].children.len()
            } else {
                0
            },
    {
        if id < self.nodes.len() {
            self.nodes[id].children.len()
        } else {
            0
        }
    }

    /// The tag of the element `id`; `None` for a text node and for a number
    /// that names no node.
    pub fn tag(&self, id: usize) -> (r: Option<String>)
        ensures
            match r {
                Some(t) => refusal_to_store(self@, id) is None && t@ == self@[id as int].tag,
                None => refusal_to_store(self@, id) is Some,
            },
    {
        if id < self.nodes.len() && self.nodes[id].text.is_none() {
            Some(self.nodes[id].tag.clone())
        } else {
            None
        }
    }

    /// The text of the text node `id`; `None` for an element and for a number
    /// that names no node.
    pub fn text(&self, id: usize) -> (r: Option<String>)
        ensures
            match r {
                Some(t) => id < self@.len() && self@[id as int].text == Some(t@),
                None => id >= self@.len() || self@[id as int].text is None,
            },
    {
        if id < self.nodes.len() {
            match &self.nodes[id].text {
                Some(t) => Some(t.clone()),
                None => None,
            }
        } else {
            None
        }
    }

    /// What the element `id` holds under `kind` and `key`, if anything.
    pub fn attribute(&self, id: usize, kind: AttrKind, key: &String) -> (r: Option<AttrValue>)
        ensures
            match r {
                Some(v) => id < self@.len() && self@[id as int].attributes.contains_key(
                    (kind, key@),
                ) && self@[id as int].attributes[(kind, key@)] == v@,
                None => id >= self@.len() || !self@[id as int].attributes.contains_key(
                    (kind, key@),
                ),
            },
    {
        if id >= self.nodes.len() {
            return None;
        }
        let attrs = &self.nodes[id].attributes;
        let ghost all = attrs_view(attrs@);
        let mut i: usize = attrs.len();
        proof {
            assert(all.take(attrs.len() as int) =~= all);
        }
        while i > 0
            invariant
                i <= attrs.len(),
                all == attrs_view(attrs@),
                id < self@.len(),
                self@[id as int].attributes == stored(all),
                stored(all).contains_key((kind, key@)) == stored(all.take(i as int)).contains_key(
                    (kind, key@),
                ),
                stored(all).contains_key((kind, key@)) ==> stored(all)[(kind, key@)] == stored(
                    all.take(i as int),
                )[(kind, key@)],
            decreases i,
        {
            let a = &attrs[i - 1];
            proof {
                assert(all.take(i as int).drop_last() =~= all.take(i - 1));
                assert(all.take(i as int).last() == a@);
            }
            if a.kind == kind && a.key == *key {
                return Some(a.value.duplicate());
            }
            i -= 1;
        }
        proof {
            assert(all.take(0) =~= Seq::empty());
        }
        None
    }

    /// The listeners installed on `id`, in the order in which they came; none
    /// for a number that names no node.
    pub fn listeners(&self, id: usize) -> (r: Vec<ConcreteVListener>)
        ensures
            listeners_view(r@) == if id < self@.len() {
                self@[id as int].listeners
            } else {
                Seq::empty()
            },
    {
        let mut r: Vec<ConcreteVListener> = Vec::new();
        if id < self.nodes.len() {
            let held = &self.nodes[id].listeners;
            let mut i: usize = 0;
            while i < held.len()
                invariant
                    i <= held.len(),
                    listeners_view(r@) == listeners_view(held@).take(i as int),
                decreases held.len() - i,
            {
                let ghost before = listeners_view(r@);
                r.push(held[i].duplicate());
                assert(listeners_view(r@) =~= before.push(held@[i as int]@));
                assert(listeners_view(held@).take(i + 1) =~= listeners_view(held@).take(
                    i as int,
                ).push(held@[i as int]@));
                i += 1;
            }
            assert(listeners_view(held@).take(held@.len() as int) =~= listeners_view(held@));
        } else {
            assert(listeners_view(r@) =~= Seq::empty());
        }
        r
    }

    /// Whether `id` names a text node.
    pub fn is_text(&self, id: usize) -> (r: bool)
        ensures
            r == (id < self@.len() && self@[id as int].text is Some),
    {
        id < self.nodes.len() && self.nodes[id].text.is_some()
    }
}

/// Where `x` stands in `list`.
fn position_in(list: &Vec<usize>, x: usize) -> (at: usize)
    requires
        list@.contains(x),
        list@.no_duplicates(),
    ensures
        at == list@.index_of(x),
        at < list.len(),
{
    let mut i: usize = 0;
    while i < list.len()
        invariant
            i <= list.len(),
            list@.contains(x),
            list@.no_duplicates(),
            forall|j: int| 0 <= j < i ==> list@[j] != x,
        decreases list.len() - i,
    {
        if list[i] == x {
            proof {
                crate::tree::lemma_only_index(list@, x, i as int);
            }
            return i;
        }
        i += 1;
    }
    proof {
        let w = choose|w: int| 0 <= w < list@.len() && list@[w] == x;
        assert(list@[w] != x);
    }
    0
}

/// A node that was just made can join any arena that keeps its invariant.
pub proof fn lemma_push_keeps_tree(d: Seq<LiveView>, node: LiveView)
    requires
        tree_ok(d),
        d.len() < usize::MAX,
        node.parent is None,
        node.children.len() == 0,
    ensures
        tree_ok(d.push(node)),
{
    let e = d.push(node);
    assert(e.len() <= usize::MAX);
    assert forall|id: int| 0 <= id < e.len() implies #[trigger] node_ok(e, id) by {
        if id < d.len() {
            assert(node_ok(d, id));
            assert(e[id] == d[id]);
        }
    }
}

} // verus!
