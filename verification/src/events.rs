//! Event listeners as plain values.

use crate::dom::{refusal_to_store, Dom, DomError};
use crate::tree::{with_listener, without_listener};
use vstd::prelude::*;

verus! {

/// A listener that an element is to carry: the type of event it waits for and
/// the number under which the host finds the handler to run.
#[derive(Debug)]
pub struct ConcreteVListener {
    pub event: String,
    pub handler: u64,
}

/// The mathematical value of a [`ConcreteVListener`].
pub struct ListenerView {
    pub event: Seq<char>,
    pub handler: u64,
}

impl View for ConcreteVListener {
    type V = ListenerView;

    open spec fn view(&self) -> ListenerView {
        ListenerView { event: self.event@, handler: self.handler }
    }
}

/// The views of a list of listeners, in order.
pub open spec fn listeners_view(listeners: Seq<ConcreteVListener>) -> Seq<ListenerView> {
    Seq::new(listeners.len(), |i: int| listeners[i]@)
}

impl ConcreteVListener {
    /// A listener for events of type `event`, served by handler `handler`.
    pub fn new(event: &str, handler: u64) -> (r: ConcreteVListener)
        ensures
            r@ == (ListenerView { event: event@, handler }),
    {
        ConcreteVListener { event: event.to_owned(), handler }
    }

    /// An independent copy of the listener.
    pub fn duplicate(&self) -> (r: ConcreteVListener)
        ensures
            r@ == self@,
    {
        ConcreteVListener { event: self.event.clone(), handler: self.handler }
    }
}

/// Something that waits for events of one type on a live element.
pub trait VListener {
    /// The type of event that it waits for.
    fn key(&self) -> String;

    /// Installs it on the live element `element`.
    fn install(&self, dom: &mut Dom, element: usize) -> (r: Result<(), DomError>)
        requires
            old(dom).wf(),
        ensures
            final(dom).wf(),
    ;

    /// Takes it off the live element `element`.
    fn remove(&self, dom: &mut Dom, element: usize) -> (r: Result<(), DomError>)
        requires
            old(dom).wf(),
        ensures
            final(dom).wf(),
    ;
}

impl VListener for ConcreteVListener {
    fn key(&self) -> (r: String)
        ensures
            r@ == self@.event,
    {
        self.event.clone()
    }

    fn install(&self, dom: &mut Dom, element: usize) -> (r: Result<(), DomError>)
        ensures
            match refusal_to_store(old(dom)@, element) {
                Some(e) => r == Err::<(), DomError>(e) && final(dom)@ == old(dom)@,
                None => r is Ok && final(dom)@ == with_listener(old(dom)@, element, self@),
            },
    {
        dom.add_listener(element, self.duplicate())
    }

    fn remove(&self, dom: &mut Dom, element: usize) -> (r: Result<(), DomError>)
        ensures
            match refusal_to_store(old(dom)@, element) {
                Some(e) => r == Err::<(), DomError>(e) && final(dom)@ == old(dom)@,
                None => r is Ok && final(dom)@ == without_listener(old(dom)@, element, self@),
            },
    {
        dom.remove_listener(element, self)
    }
}

} // verus!
