//! Element attributes as plain values.

use crate::dom::{refusal_to_store, Dom, DomError};
use crate::tree::{with_attribute, without_attribute};
use vstd::prelude::*;

verus! {

/// How the host stores an attribute: through its named-attribute path or by
/// assigning a property of the element.
#[derive(Debug, Clone, Copy, PartialEq, Eq, Structural)]
pub enum AttrKind {
    Attribute,
    Property,
}

/// A scalar that the host can hold as the value of an attribute.
#[derive(Debug, PartialEq)]
pub enum AttrValue {
    Undefined,
    Null,
    Bool(bool),
    Number(i32),
    /// A double, held as its IEEE-754 bit pattern.
    Real(u64),
    Text(String),
}

/// The mathematical value of an [`AttrValue`].
pub enum AttrValueView {
    Undefined,
    Null,
    Bool(bool),
    Number(int),
    Real(u64),
    Text(Seq<char>),
}

impl View for AttrValue {
    type V = AttrValueView;

    open spec fn view(&self) -> AttrValueView {
        match self {
            AttrValue::Undefined => AttrValueView::Undefined,
            AttrValue::Null => AttrValueView::Null,
            AttrValue::Bool(b) => AttrValueView::Bool(*b),
            AttrValue::Number(n) => AttrValueView::Number(*n as int),
            AttrValue::Real(bits) => AttrValueView::Real(*bits),
            AttrValue::Text(s) => AttrValueView::Text(s@),
        }
    }
}

impl AttrValue {
    /// Structural equality of two values.
    pub fn same(&self, other: &AttrValue) -> (r: bool)
        ensures
            r == (self@ == other@),
    {
        match (self, other) {
            (AttrValue::Undefined, AttrValue::Undefined) => true,
            (AttrValue::Null, AttrValue::Null) => true,
            (AttrValue::Bool(a), AttrValue::Bool(b)) => *a == *b,
            (AttrValue::Number(a), AttrValue::Number(b)) => *a == *b,
            (AttrValue::Real(a), AttrValue::Real(b)) => *a == *b,
            (AttrValue::Text(a), AttrValue::Text(b)) => *a == *b,
            _ => false,
        }
    }

    /// An independent copy of the value.
    pub fn duplicate(&self) -> (r: AttrValue)
        ensures
            r@ == self@,
    {
        match self {
            AttrValue::Undefined => AttrValue::Undefined,
            AttrValue::Null => AttrValue::Null,
            AttrValue::Bool(b) => AttrValue::Bool(*b),
            AttrValue::Number(n) => AttrValue::Number(*n),
            AttrValue::Real(bits) => AttrValue::Real(*bits),
            AttrValue::Text(s) => AttrValue::Text(s.clone()),
        }
    }
}

/// One attribute of an element: how the host stores it, its name and its value.
#[derive(Debug, PartialEq)]
pub struct Attr {
    pub kind: AttrKind,
    pub key: String,
    pub value: AttrValue,
}

/// The mathematical value of an [`Attr`].
pub struct AttrView {
    pub kind: AttrKind,
    pub key: Seq<char>,
    pub value: AttrValueView,
}

impl View for Attr {
    type V = AttrView;

    open spec fn view(&self) -> AttrView {
        AttrView { kind: self.kind, key: self.key@, value: self.value@ }
    }
}

/// The views of a list of attributes, in order.
pub open spec fn attrs_view(attrs: Seq<Attr>) -> Seq<AttrView> {
    Seq::new(attrs.len(), |i: int| attrs[i]@)
}

/// The position of the first attribute named `key`, or the length of the list
/// when none has that name.
pub open spec fn position_of(attrs: Seq<AttrView>, key: Seq<char>) -> int
    decreases attrs.len(),
{
    if attrs.len() == 0 {
        0
    } else if attrs[0].key == key {
        0
    } else {
        1 + position_of(attrs.subrange(1, attrs.len() as int), key)
    }
}

/// The first attribute named `key`, if there is one.
pub open spec fn lookup(attrs: Seq<AttrView>, key: Seq<char>) -> Option<AttrView> {
    let at = position_of(attrs, key);
    if at < attrs.len() {
        Some(attrs[at])
    } else {
        None
    }
}

/// No two attributes of the list share a name.
pub open spec fn distinct_keys(attrs: Seq<AttrView>) -> bool {
    forall|i: int, j: int|
        0 <= i < j < attrs.len() ==> (#[trigger] attrs[i]).key != (#[trigger] attrs[j]).key
}

/// `position_of` is the least index that holds the key.
pub proof fn lemma_position_of(attrs: Seq<AttrView>, key: Seq<char>)
    ensures
        0 <= position_of(attrs, key) <= attrs.len(),
        position_of(attrs, key) < attrs.len() ==> attrs[position_of(attrs, key)].key == key,
        forall|i: int| 0 <= i < position_of(attrs, key) ==> (#[trigger] attrs[i]).key != key,
    decreases attrs.len(),
{
    if attrs.len() != 0 && attrs[0].key != key {
        let rest = attrs.subrange(1, attrs.len() as int);
        lemma_position_of(rest, key);
        assert forall|i: int| 0 <= i < position_of(attrs, key) implies (#[trigger] attrs[i]).key
            != key by {
            if i > 0 {
                assert(attrs[i] == rest[i - 1]);
            }
        }
    }
}

/// An index that holds the key and has no earlier holder is the key's position.
pub proof fn lemma_position_is(attrs: Seq<AttrView>, key: Seq<char>, at: int)
    requires
        0 <= at <= attrs.len(),
        at < attrs.len() ==> attrs[at].key == key,
        forall|i: int| 0 <= i < at ==> (#[trigger] attrs[i]).key != key,
    ensures
        position_of(attrs, key) == at,
{
    lemma_position_of(attrs, key);
    let p = position_of(attrs, key);
    if p < at {
        assert(attrs[p].key != key);
    }
}

impl Attr {
    /// An attribute that the host assigns as a property of the element.
    pub fn property(key: &str, v: AttrValue) -> (r: Attr)
        ensures
            r@ == (AttrView { kind: AttrKind::Property, key: key@, value: v@ }),
    {
        Attr { kind: AttrKind::Property, key: key.to_owned(), value: v }
    }

    /// An attribute that the host stores through its named-attribute path.
    pub fn attribute(key: &str, v: AttrValue) -> (r: Attr)
        ensures
            r@ == (AttrView { kind: AttrKind::Attribute, key: key@, value: v@ }),
    {
        Attr { kind: AttrKind::Attribute, key: key.to_owned(), value: v }
    }

    /// Stores the attribute on the live element `element`, by the path that
    /// its kind names.
    pub fn set(&self, dom: &mut Dom, element: usize) -> (r: Result<(), DomError>)
        requires
            old(dom).wf(),
        ensures
            final(dom).wf(),
            match refusal_to_store(old(dom)@, element) {
                Some(e) => r == Err::<(), DomError>(e) && final(dom)@ == old(dom)@,
                None => r is Ok && final(dom)@ == with_attribute(old(dom)@, element, self@),
            },
    {
        dom.set_attribute(element, self)
    }

    /// Removes what the live element `element` holds under the attribute's
    /// kind and name.
    pub fn remove(&self, dom: &mut Dom, element: usize) -> (r: Result<(), DomError>)
        requires
            old(dom).wf(),
        ensures
            final(dom).wf(),
            match refusal_to_store(old(dom)@, element) {
                Some(e) => r == Err::<(), DomError>(e) && final(dom)@ == old(dom)@,
                None => r is Ok && final(dom)@ == without_attribute(
                    old(dom)@,
                    element,
                    self@.kind,
                    self@.key,
                ),
            },
    {
        dom.remove_attribute(element, self.kind, &self.key)
    }

    /// Equality by kind, name and value.
    pub fn same(&self, other: &Attr) -> (r: bool)
        ensures
            r == (self@ == other@),
    {
        self.kind == other.kind && self.key == other.key && self.value.same(&other.value)
    }

    /// An independent copy of the attribute.
    pub fn duplicate(&self) -> (r: Attr)
        ensures
            r@ == self@,
    {
        Attr { kind: self.kind, key: self.key.clone(), value: self.value.duplicate() }
    }
}

/// The property `className`: the CSS classes.
pub fn class(val: AttrValue) -> (r: Attr)
    ensures
        r@ == (AttrView { kind: AttrKind::Property, key: "className"@, value: val@ }),
{
    Attr::property("className", val)
}

/// The property `style`: the inline style.
pub fn style(val: AttrValue) -> (r: Attr)
    ensures
        r@ == (AttrView { kind: AttrKind::Property, key: "style"@, value: val@ }),
{
    Attr::property("style", val)
}

/// The property `name`: the name of an input.
pub fn name(val: AttrValue) -> (r: Attr)
    ensures
        r@ == (AttrView { kind: AttrKind::Property, key: "name"@, value: val@ }),
{
    Attr::property("name", val)
}

/// The property `type`: the type of an input.
pub fn type_(val: AttrValue) -> (r: Attr)
    ensures
        r@ == (AttrView { kind: AttrKind::Property, key: "type"@, value: val@ }),
{
    Attr::property("type", val)
}

/// The property `value`: the value of an input.
pub fn value(val: AttrValue) -> (r: Attr)
    ensures
        r@ == (AttrView { kind: AttrKind::Property, key: "value"@, value: val@ }),
{
    Attr::property("value", val)
}

/// The property `checked`: whether an input is checked.
pub fn checked(val: AttrValue) -> (r: Attr)
    ensures
        r@ == (AttrView { kind: AttrKind::Property, key: "checked"@, value: val@ }),
{
    Attr::property("checked", val)
}

/// The property `disabled`: whether an input is disabled.
pub fn disabled(val: AttrValue) -> (r: Attr)
    ensures
        r@ == (AttrView { kind: AttrKind::Property, key: "disabled"@, value: val@ }),
{
    Attr::property("disabled", val)
}

/// The property `href`: the target of a link.
pub fn href(val: AttrValue) -> (r: Attr)
    ensures
        r@ == (AttrView { kind: AttrKind::Property, key: "href"@, value: val@ }),
{
    Attr::property("href", val)
}

/// Something that can be stored on a live element under a name.
pub trait Attribute {
    /// The name under which it is stored.
    fn key(&self) -> String;

    /// Stores it on the live element `element`.
    fn set(&self, dom: &mut Dom, element: usize) -> (r: Result<(), DomError>)
        requires
            old(dom).wf(),
        ensures
            final(dom).wf(),
    ;
}

impl Attribute for Attr {
    fn key(&self) -> (r: String)
        ensures
            r@ == self@.key,
    {
        self.key.clone()
    }

    fn set(&self, dom: &mut Dom, element: usize) -> (r: Result<(), DomError>)
        ensures
            match refusal_to_store(old(dom)@, element) {
                Some(e) => r == Err::<(), DomError>(e) && final(dom)@ == old(dom)@,
                None => r is Ok && final(dom)@ == with_attribute(old(dom)@, element, self@),
            },
    {
        dom.set_attribute(element, self)
    }
}

/// Finds the first attribute named `key` in `attrs`.
pub fn find_attribute(attrs: &Vec<Attr>, key: &String) -> (r: Option<usize>)
    ensures
        match r {
            Some(at) => at < attrs.len() && position_of(attrs_view(attrs@), key@) == at,
            None => lookup(attrs_view(attrs@), key@) is None,
        },
{
    let mut i: usize = 0;
    while i < attrs.len()
        invariant
            i <= attrs.len(),
            forall|j: int| 0 <= j < i ==> (#[trigger] attrs_view(attrs@)[j]).key != key@,
        decreases attrs.len() - i,
    {
        if attrs[i].key == *key {
            proof {
                lemma_position_is(attrs_view(attrs@), key@, i as int);
            }
            return Some(i);
        }
        i += 1;
    }
    proof {
        lemma_position_is(attrs_view(attrs@), key@, attrs.len() as int);
    }
    None
}

} // verus!
