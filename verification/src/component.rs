//! What an application supplies: a component that turns messages into state
//! and state into a snapshot.

use crate::node::Node;
use vstd::prelude::*;

verus! {

/// Why an update cycle cannot go on. These are faults of the application,
/// not outcomes of a correct one.
#[derive(Debug, Clone, Copy, PartialEq, Eq, Structural)]
pub enum Fault {
    /// A message was dispatched while an update of the same root was running.
    Reentrant,
    /// The patches cannot be applied to the live tree.
    Apply(crate::apply::ApplyError),
    /// The snapshot stands for more live nodes than there are addresses.
    TooLarge,
}

/// The handle for dispatching messages to a root. It can be kept: a message
/// sent through it while no update runs waits in line until the root takes
/// it. While an update runs the root holds the handle, and nothing may be
/// sent through it; what is sent all the same is set aside as refused, for
/// the root to see when the update returns.
#[derive(Debug)]
pub struct Callback<Msg> {
    held: bool,
    pending: Vec<Msg>,
    refused: Vec<Msg>,
}

impl<Msg> Callback<Msg> {
    /// The root holds the handle: an update is running.
    pub closed spec fn held(&self) -> bool {
        self.held
    }

    /// The messages that wait to be dispatched, in the order in which they
    /// came.
    pub closed spec fn pending(&self) -> Seq<Msg> {
        self.pending@
    }

    /// The messages that were sent while the handle was held.
    pub closed spec fn refused(&self) -> Seq<Msg> {
        self.refused@
    }

    /// A handle that is not held, through which nothing was sent yet.
    pub fn new() -> (r: Callback<Msg>)
        ensures
            !r.held(),
            r.pending() == Seq::<Msg>::empty(),
            r.refused() == Seq::<Msg>::empty(),
    {
        Callback { held: false, pending: Vec::new(), refused: Vec::new() }
    }

    /// Whether the root holds the handle.
    pub fn is_held(&self) -> (r: bool)
        ensures
            r == self.held(),
    {
        self.held
    }

    /// Sends `msg` to the root: it waits in line. Nothing may be sent while
    /// the handle is held.
    pub fn call(&mut self, msg: Msg)
        requires
            !old(self).held(),
        ensures
            !final(self).held(),
            final(self).pending() == old(self).pending().push(msg),
            final(self).refused() == old(self).refused(),
    {
        if self.held {
            self.refused.push(msg);
        } else {
            self.pending.push(msg);
        }
    }

    /// Takes the message that has waited longest, if one waits.
    pub fn take(&mut self) -> (r: Option<Msg>)
        ensures
            final(self).held() == old(self).held(),
            final(self).refused() == old(self).refused(),
            match r {
                Some(msg) => old(self).pending().len() > 0 && msg == old(self).pending()[0]
                    && final(self).pending() == old(self).pending().remove(0),
                None => old(self).pending().len() == 0 && final(self).pending() == old(
                    self,
                ).pending(),
            },
    {
        if self.pending.len() > 0 {
            Some(self.pending.remove(0))
        } else {
            None
        }
    }

    /// The root takes hold of the handle for an update. What was refused
    /// before is forgotten.
    pub fn hold(&mut self)
        ensures
            final(self).held(),
            final(self).pending() == old(self).pending(),
            final(self).refused() == Seq::<Msg>::empty(),
    {
        self.held = true;
        self.refused.clear();
    }

    /// The root lets go of the handle.
    pub fn release(&mut self)
        ensures
            !final(self).held(),
            final(self).pending() == old(self).pending(),
            final(self).refused() == old(self).refused(),
    {
        self.held = false;
    }

    /// Whether a message was sent while the handle was held.
    pub fn violated(&self) -> (r: bool)
        ensures
            r == (self.refused().len() > 0),
    {
        self.refused.len() > 0
    }
}

/// An application component: `view` gives the snapshot of its present state,
/// `update` takes one message into its state. During `update` the root holds
/// `recur`.
pub trait Component<Msg> {
    fn view(&self) -> Node;

    fn update(&mut self, msg: Msg, recur: &mut Callback<Msg>);
}

} // verus!
