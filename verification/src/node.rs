//! The immutable snapshot of a UI tree.

use crate::attribute::{attrs_view, find_attribute, lemma_position_of, lookup, Attr, AttrView};
use crate::attribute::{distinct_keys, position_of};
use crate::events::{listeners_view, ConcreteVListener, ListenerView};
use vstd::prelude::*;

verus! {

/// One element of a snapshot: its kind, its attributes (no two of one name),
/// its children in order, and the listeners to install when it is created.
#[derive(Debug)]
pub struct Node {
    pub tag: String,
    pub attributes: Vec<Attr>,
    pub children: Vec<Child>,
    pub listeners: Vec<ConcreteVListener>,
}

/// A child of an element: a run of text or another element.
#[derive(Debug)]
pub enum Child {
    Text(String),
    Node(Node),
}

/// The mathematical value of a [`Node`].
pub struct NodeView {
    pub tag: Seq<char>,
    pub attributes: Seq<AttrView>,
    pub children: Seq<ChildView>,
    pub listeners: Seq<ListenerView>,
}

/// The mathematical value of a [`Child`].
pub enum ChildView {
    Text(Seq<char>),
    Node(NodeView),
}

impl View for Node {
    type V = NodeView;

    open spec fn view(&self) -> NodeView
        decreases self,
    {
        NodeView {
            tag: self.tag@,
            attributes: attrs_view(self.attributes@),
            children: Seq::new(
                self.children@.len(),
                |i: int|
                    if 0 <= i < self.children@.len() {
                        child_view(self.children@[i])
                    } else {
                        ChildView::Text(Seq::empty())
                    },
            ),
            listeners: listeners_view(self.listeners@),
        }
    }
}

/// The mathematical value of one child.
pub open spec fn child_view(c: Child) -> ChildView
    decreases c,
{
    match c {
        Child::Text(s) => ChildView::Text(s@),
        Child::Node(n) => ChildView::Node(n@),
    }
}

impl View for Child {
    type V = ChildView;

    open spec fn view(&self) -> ChildView {
        child_view(*self)
    }
}

/// The views of a list of children, in order.
pub open spec fn children_view(cs: Seq<Child>) -> Seq<ChildView> {
    Seq::new(cs.len(), |i: int| child_view(cs[i]))
}

/// The number of live nodes that a child stands for: itself and everything
/// below it.
pub open spec fn child_size(c: ChildView) -> nat
    decreases c, 0nat,
{
    match c {
        ChildView::Text(_) => 1,
        ChildView::Node(n) => 1 + forest_size(n.children, n.children.len()),
    }
}

/// The number of live nodes that the first `n` children of a list stand for.
pub open spec fn forest_size(cs: Seq<ChildView>, n: nat) -> nat
    decreases cs, n,
{
    if n == 0 || n > cs.len() {
        0
    } else {
        forest_size(cs, (n - 1) as nat) + child_size(cs[n - 1])
    }
}

/// The number of live nodes that a snapshot stands for.
pub open spec fn size(n: NodeView) -> nat {
    1 + forest_size(n.children, n.children.len())
}

/// Two attribute lists name the same attributes with the same kinds and values.
pub open spec fn same_attributes(a: Seq<AttrView>, b: Seq<AttrView>) -> bool {
    forall|key: Seq<char>| lookup(a, key) == lookup(b, key)
}

/// Equality of snapshots: the same tag, the same attributes whatever their
/// order, and children that are pairwise equal. Listeners play no part.
pub open spec fn node_equal(a: NodeView, b: NodeView) -> bool
    decreases a, 0nat,
{
    &&& a.tag == b.tag
    &&& same_attributes(a.attributes, b.attributes)
    &&& a.children.len() == b.children.len()
    &&& children_equal(a.children, b.children, a.children.len())
}

/// The first `n` children of two lists are pairwise equal.
pub open spec fn children_equal(a: Seq<ChildView>, b: Seq<ChildView>, n: nat) -> bool
    decreases a, n,
{
    if n == 0 || n > a.len() || n > b.len() {
        n == 0
    } else {
        children_equal(a, b, (n - 1) as nat) && child_equal(a[n - 1], b[n - 1])
    }
}

/// Equality of children: a text and an element are never equal.
pub open spec fn child_equal(a: ChildView, b: ChildView) -> bool
    decreases a, 1nat,
{
    match (a, b) {
        (ChildView::Text(s), ChildView::Text(t)) => s == t,
        (ChildView::Node(m), ChildView::Node(n)) => node_equal(m, n),
        _ => false,
    }
}

/// The snapshot keeps its invariant: in every element, no two attributes share
/// a name.
pub open spec fn well_formed(n: NodeView) -> bool
    decreases n, 0nat,
{
    distinct_keys(n.attributes) && children_well_formed(n.children, n.children.len())
}

/// The first `n` children of a list keep the snapshot invariant.
pub open spec fn children_well_formed(cs: Seq<ChildView>, n: nat) -> bool
    decreases cs, n,
{
    if n == 0 || n > cs.len() {
        true
    } else {
        children_well_formed(cs, (n - 1) as nat) && match cs[n - 1] {
            ChildView::Text(_) => true,
            ChildView::Node(c) => well_formed(c),
        }
    }
}

/// Every attribute of `a` is found in `b` under its name, as `a` itself finds it.
pub open spec fn covered_by(a: Seq<AttrView>, b: Seq<AttrView>, n: int) -> bool {
    forall|i: int| 0 <= i < n ==> lookup(b, (#[trigger] a[i]).key) == lookup(a, a[i].key)
}

/// Two lists hold the same attributes exactly when each covers the other.
pub proof fn lemma_same_attributes(a: Seq<AttrView>, b: Seq<AttrView>)
    ensures
        same_attributes(a, b) <==> covered_by(a, b, a.len() as int) && covered_by(
            b,
            a,
            b.len() as int,
        ),
{
    if covered_by(a, b, a.len() as int) && covered_by(b, a, b.len() as int) {
        assert forall|key: Seq<char>| lookup(a, key) == lookup(b, key) by {
            lemma_position_of(a, key);
            lemma_position_of(b, key);
            let p = position_of(a, key);
            let q = position_of(b, key);
            if p < a.len() {
                assert(a[p].key == key);
            } else if q < b.len() {
                assert(b[q].key == key);
            }
        }
    }
}

/// Whether every attribute of `a` is found in `b` as `a` itself finds it.
fn covers(a: &Vec<Attr>, b: &Vec<Attr>) -> (r: bool)
    ensures
        r == covered_by(attrs_view(a@), attrs_view(b@), a.len() as int),
{
    let mut i: usize = 0;
    while i < a.len()
        invariant
            i <= a.len(),
            covered_by(attrs_view(a@), attrs_view(b@), i as int),
        decreases a.len() - i,
    {
        let key = &a[i].key;
        let ghost av = attrs_view(a@);
        let ghost bv = attrs_view(b@);
        assert(av[i as int].key == key@);
        let mine = find_attribute(a, key);
        let theirs = find_attribute(b, key);
        proof {
            lemma_position_of(av, key@);
            lemma_position_of(bv, key@);
        }
        let agree = match (mine, theirs) {
            (Some(p), Some(q)) => a[p].same(&b[q]),
            _ => false,
        };
        if !agree {
            assert(lookup(bv, av[i as int].key) != lookup(av, av[i as int].key));
            return false;
        }
        i += 1;
    }
    true
}

impl Node {
    /// An element of kind `tag` with no attributes, children or listeners.
    pub fn new(tag: &str) -> (r: Node)
        ensures
            r@ == (NodeView {
                tag: tag@,
                attributes: Seq::empty(),
                children: Seq::empty(),
                listeners: Seq::empty(),
            }),
    {
        let r = Node {
            tag: tag.to_owned(),
            attributes: Vec::new(),
            children: Vec::new(),
            listeners: Vec::new(),
        };
        assert(r@.attributes =~= Seq::empty());
        assert(r@.children =~= Seq::empty());
        assert(r@.listeners =~= Seq::empty());
        r
    }

    /// An element of kind `tag` whose children are the elements `things`, in
    /// order.
    pub fn wrap_in(tag: &str, things: Vec<Node>) -> (r: Node)
        ensures
            r@.tag == tag@,
            r@.attributes == Seq::<AttrView>::empty(),
            r@.listeners == Seq::<ListenerView>::empty(),
            r@.children == Seq::new(things@.len(), |i: int| ChildView::Node(things@[i]@)),
    {
        let mut rest = things;
        let mut children: Vec<Child> = Vec::new();
        let ghost all = rest@;
        while rest.len() > 0
            invariant
                rest@.len() <= all.len(),
                children@.len() + rest@.len() == all.len(),
                rest@ == all.subrange(children@.len() as int, all.len() as int),
                forall|i: int|
                    0 <= i < children@.len() ==> child_view(#[trigger] children@[i])
                        == ChildView::Node(all[i]@),
            decreases rest.len(),
        {
            let node = rest.remove(0);
            assert(node == all[children@.len() as int]);
            children.push(Child::Node(node));
            assert(rest@ =~= all.subrange(children@.len() as int, all.len() as int));
        }
        let r = Node {
            tag: tag.to_owned(),
            attributes: Vec::new(),
            children,
            listeners: Vec::new(),
        };
        assert(r@.attributes =~= Seq::empty());
        assert(r@.listeners =~= Seq::empty());
        assert(r@.children =~= Seq::new(things@.len(), |i: int| ChildView::Node(things@[i]@)));
        r
    }

    /// Adds a listener to install when the element is made.
    pub fn add_event_listener(&mut self, listener: ConcreteVListener)
        ensures
            final(self)@ == (NodeView {
                listeners: old(self)@.listeners.push(listener@),
                ..old(self)@
            }),
    {
        self.listeners.push(listener);
        assert(self@.listeners =~= old(self)@.listeners.push(listener@));
        assert(self@.children =~= old(self)@.children);
    }

    /// Adds an element as the last child.
    pub fn append_child(&mut self, node: Node)
        ensures
            final(self)@ == (NodeView {
                children: old(self)@.children.push(ChildView::Node(node@)),
                ..old(self)@
            }),
    {
        self.children.push(Child::Node(node));
        assert(self@.children =~= old(self)@.children.push(ChildView::Node(node@)));
    }

    /// Adds a text as the last child.
    pub fn append_string(&mut self, text: String)
        ensures
            final(self)@ == (NodeView {
                children: old(self)@.children.push(ChildView::Text(text@)),
                ..old(self)@
            }),
    {
        self.children.push(Child::Text(text));
        assert(self@.children =~= old(self)@.children.push(ChildView::Text(text@)));
    }

    /// Sets an attribute: in the place of the one of the same name, if there
    /// is one, and after the others if not.
    pub fn add_attribute(&mut self, attribute: Attr)
        ensures
            final(self)@ == (NodeView {
                attributes: with_attr(old(self)@.attributes, attribute@),
                ..old(self)@
            }),
            distinct_keys(old(self)@.attributes) ==> distinct_keys(final(self)@.attributes),
            lookup(final(self)@.attributes, attribute@.key) == Some(attribute@),
    {
        let ghost before = self@.attributes;
        proof {
            lemma_position_of(before, attribute@.key);
        }
        match find_attribute(&self.attributes, &attribute.key) {
            Some(at) => {
                self.attributes.set(at, attribute);
                assert(self@.attributes =~= before.update(at as int, attribute@));
            },
            None => {
                self.attributes.push(attribute);
                assert(self@.attributes =~= before.push(attribute@));
            },
        }
        assert(self@.children =~= old(self)@.children);
        proof {
            lemma_with_attr(before, attribute@);
        }
    }

    /// Whether the live nodes that the snapshot stands for can all be given
    /// an address.
    pub fn fits(&self) -> (r: bool)
        ensures
            r == (size(self@) <= i32::MAX),
    {
        let kids = self.children.as_slice();
        assert(children_view(kids@) =~= self@.children);
        count_within(kids, i32::MAX - 1).is_some()
    }

    /// Whether two snapshots are equal: tags, attributes and children, not
    /// listeners.
    pub fn same(&self, other: &Node) -> (r: bool)
        ensures
            r == node_equal(self@, other@),
        decreases self,
    {
        if self.tag != other.tag {
            return false;
        }
        proof {
            lemma_same_attributes(self@.attributes, other@.attributes);
        }
        if !covers(&self.attributes, &other.attributes) {
            return false;
        }
        if !covers(&other.attributes, &self.attributes) {
            return false;
        }
        if self.children.len() != other.children.len() {
            return false;
        }
        let mut i: usize = 0;
        while i < self.children.len()
            invariant
                i <= self.children.len(),
                self.children.len() == other.children.len(),
                children_equal(self@.children, other@.children, i as nat),
            decreases self.children.len() - i,
        {
            let equal = match (&self.children[i], &other.children[i]) {
                (Child::Text(s), Child::Text(t)) => *s == *t,
                (Child::Node(m), Child::Node(n)) => m.same(n),
                _ => false,
            };
            assert(equal == child_equal(self@.children[i as int], other@.children[i as int]));
            if !equal {
                proof {
                    lemma_children_differ(
                        self@.children,
                        other@.children,
                        i as int,
                        self.children.len() as nat,
                    );
                }
                return false;
            }
            i += 1;
        }
        true
    }
}

impl PartialEq for Node {
    fn eq(&self, other: &Node) -> (r: bool) {
        self.same(other)
    }
}

impl vstd::std_specs::cmp::PartialEqSpecImpl for Node {
    open spec fn obeys_eq_spec() -> bool {
        true
    }

    open spec fn eq_spec(&self, other: &Node) -> bool {
        node_equal(self@, other@)
    }
}

impl PartialEq for Child {
    fn eq(&self, other: &Child) -> (r: bool) {
        match (self, other) {
            (Child::Text(s), Child::Text(t)) => *s == *t,
            (Child::Node(m), Child::Node(n)) => m.same(n),
            _ => false,
        }
    }
}

impl vstd::std_specs::cmp::PartialEqSpecImpl for Child {
    open spec fn obeys_eq_spec() -> bool {
        true
    }

    open spec fn eq_spec(&self, other: &Child) -> bool {
        child_equal(self@, other@)
    }
}

/// The attributes once `a` is set: in the place of the one of its name, or
/// after the others.
pub open spec fn with_attr(attrs: Seq<AttrView>, a: AttrView) -> Seq<AttrView> {
    if position_of(attrs, a.key) < attrs.len() {
        attrs.update(position_of(attrs, a.key), a)
    } else {
        attrs.push(a)
    }
}

/// Setting an attribute keeps the names different and makes the name find
/// the attribute.
pub proof fn lemma_with_attr(attrs: Seq<AttrView>, a: AttrView)
    ensures
        distinct_keys(attrs) ==> distinct_keys(with_attr(attrs, a)),
        lookup(with_attr(attrs, a), a.key) == Some(a),
{
    lemma_position_of(attrs, a.key);
    let at = position_of(attrs, a.key);
    let after = with_attr(attrs, a);
    assert forall|i: int| 0 <= i < at implies (#[trigger] after[i]).key != a.key by {
        assert(after[i] == attrs[i]);
    }
    crate::attribute::lemma_position_is(after, a.key, at);
    if distinct_keys(attrs) {
        assert forall|i: int, j: int| 0 <= i < j < after.len() implies (#[trigger] after[i]).key != (
        #[trigger] after[j]).key by {
            if at < attrs.len() {
                if i != at && j != at {
                    assert(after[i] == attrs[i] && after[j] == attrs[j]);
                } else if i == at {
                    assert(after[j] == attrs[j]);
                    assert(attrs[at].key != attrs[j].key);
                } else {
                    assert(after[i] == attrs[i]);
                    assert(attrs[i].key != attrs[at].key);
                }
            } else {
                if j < attrs.len() {
                    assert(after[i] == attrs[i] && after[j] == attrs[j]);
                } else {
                    assert(after[i] == attrs[i]);
                }
            }
        }
    }
}

/// Counts the live nodes that the children stand for, as long as there are
/// no more than `budget`: what is left of the budget, or `None` when the
/// children stand for more.
pub fn count_within(children: &[Child], budget: i32) -> (r: Option<i32>)
    requires
        0 <= budget,
    ensures
        match r {
            Some(left) => 0 <= left && forest_size(children_view(children@), children@.len())
                == budget - left,
            None => forest_size(children_view(children@), children@.len()) > budget,
        },
    decreases children@,
{
    let ghost cs = children_view(children@);
    let mut left: i32 = budget;
    let mut i: usize = 0;
    while i < children.len()
        invariant
            i <= children.len(),
            cs == children_view(children@),
            0 <= left <= budget,
            forest_size(cs, i as nat) == budget - left,
        decreases children.len() - i,
    {
        proof {
            assert(cs[i as int] == child_view(children@[i as int]));
            assert(forest_size(cs, (i + 1) as nat) == forest_size(cs, i as nat) + child_size(
                cs[i as int],
            ));
            lemma_forest_size_grows(cs, (i + 1) as nat, children@.len());
        }
        if left == 0 {
            return None;
        }
        left = left - 1;
        match &children[i] {
            Child::Text(_) => {},
            Child::Node(node) => {
                let below = node.children.as_slice();
                assert(children_view(below@) =~= node@.children);
                match count_within(below, left) {
                    Some(rest) => {
                        left = rest;
                    },
                    None => {
                        return None;
                    },
                }
            },
        }
        i += 1;
    }
    Some(left)
}

/// The first `n` children stand for no more live nodes than the first `m`.
pub proof fn lemma_forest_size_grows(cs: Seq<ChildView>, n: nat, m: nat)
    requires
        n <= m <= cs.len(),
    ensures
        forest_size(cs, n) <= forest_size(cs, m),
    decreases m,
{
    if n < m {
        lemma_forest_size_grows(cs, n, (m - 1) as nat);
    }
}

impl From<Node> for Child {
    fn from(node: Node) -> (r: Child) {
        Child::Node(node)
    }
}

impl vstd::std_specs::convert::FromSpecImpl<Node> for Child {
    open spec fn obeys_from_spec() -> bool {
        true
    }

    open spec fn from_spec(node: Node) -> Child {
        Child::Node(node)
    }
}

impl From<String> for Child {
    fn from(text: String) -> (r: Child) {
        Child::Text(text)
    }
}

impl vstd::std_specs::convert::FromSpecImpl<String> for Child {
    open spec fn obeys_from_spec() -> bool {
        true
    }

    open spec fn from_spec(text: String) -> Child {
        Child::Text(text)
    }
}

/// Lists that differ at one position are not pairwise equal beyond it.
pub proof fn lemma_children_differ(a: Seq<ChildView>, b: Seq<ChildView>, at: int, n: nat)
    requires
        0 <= at < n <= a.len(),
        n <= b.len(),
        !child_equal(a[at], b[at]),
    ensures
        !children_equal(a, b, n),
    decreases n,
{
    if at < n - 1 {
        lemma_children_differ(a, b, at, (n - 1) as nat);
    }
}

} // verus!
