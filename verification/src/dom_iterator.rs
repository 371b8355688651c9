//! The tree walker: a single pass over a subtree of the live tree in
//! pre-order, by first child, next sibling and parent alone.

use crate::dom::Dom;
use crate::preorder::{lemma_first_child_place, lemma_last_child_place, lemma_place};
use crate::preorder::lemma_sibling_place;
use crate::tree::{preorder, tree_ok, under, place, LiveView};
use vstd::prelude::*;

verus! {

/// A walk over the subtree under one node. Each call of `next` hands out the
/// node at the next place of the pre-order; a finished walk cannot be
/// started again.
pub struct DomIterator {
    root: usize,
    current: usize,
    finished: bool,
    visited: Ghost<nat>,
}

impl DomIterator {
    /// The node whose subtree is walked.
    pub closed spec fn root(&self) -> usize {
        self.root
    }

    /// The node that the next call hands out, while the walk is not finished.
    pub closed spec fn current(&self) -> usize {
        self.current
    }

    /// The walk has handed out every node.
    pub closed spec fn finished(&self) -> bool {
        self.finished
    }

    /// The number of nodes handed out so far.
    pub closed spec fn visited(&self) -> nat {
        self.visited@
    }

    /// The walk fits the tree `d`: its node stands under the root, at the
    /// place that the count of nodes handed out names.
    pub open spec fn wf(&self, d: Seq<LiveView>) -> bool {
        &&& tree_ok(d)
        &&& self.root() < d.len()
        &&& if self.finished() {
            self.visited() == preorder(d, self.root()).len()
        } else {
            under(d, self.root(), self.current()) && self.visited() == place(
                d,
                self.root(),
                self.current(),
            )
        }
    }

    /// A walk over the subtree under `root`, with nothing handed out yet.
    pub fn new(root: usize) -> (r: DomIterator)
        ensures
            r.root() == root,
            r.current() == root,
            !r.finished(),
            r.visited() == 0,
    {
        DomIterator { root, current: root, finished: false, visited: Ghost(0) }
    }

    /// Hands out the next node of the pre-order of the subtree, or `None`
    /// when every node was handed out.
    pub fn next(&mut self, dom: &Dom) -> (r: Option<usize>)
        requires
            old(self).wf(dom@),
        ensures
            final(self).wf(dom@),
            final(self).root() == old(self).root(),
            match r {
                Some(x) => {
                    &&& old(self).visited() < preorder(dom@, old(self).root()).len()
                    &&& x == preorder(dom@, old(self).root())[old(self).visited() as int]
                    &&& final(self).visited() == old(self).visited() + 1
                },
                None => {
                    &&& old(self).visited() == preorder(dom@, old(self).root()).len()
                    &&& *final(self) == *old(self)
                },
            },
    {
        if self.finished {
            return None;
        }
        let ghost d = dom@;
        let ghost k = self.visited@;
        let ghost root = self.root;
        let here = self.current;
        proof {
            lemma_place(d, self.root, here);
        }
        match dom.first_child(here) {
            Some(child) => {
                proof {
                    lemma_first_child_place(d, self.root, here);
                }
                self.current = child;
            },
            None => {
                assert(preorder(d, here).len() == 1);
                if here == self.root {
                    self.finished = true;
                } else {
                    match dom.next_sibling(here) {
                        Some(sibling) => {
                            proof {
                                lemma_sibling_place(d, self.root, here, sibling);
                            }
                            self.current = sibling;
                        },
                        None => {
                            let mut next = here;
                            let mut climbing = true;
                            while climbing
                                invariant
                                    d == dom@,
                                    tree_ok(d),
                                    self.root == root,
                                    self.root < d.len(),
                                    self.visited@ == k,
                                    climbing ==> {
                                        &&& !self.finished
                                        &&& under(d, self.root, next)
                                        &&& next != self.root
                                        &&& crate::tree::next_sibling_of(d, next) is None
                                        &&& place(d, self.root, next) + preorder(d, next).len()
                                            == k + 1
                                    },
                                    !climbing ==> if self.finished {
                                        k + 1 == preorder(d, self.root).len()
                                    } else {
                                        under(d, self.root, self.current) && k + 1 == place(
                                            d,
                                            self.root,
                                            self.current,
                                        )
                                    },
                                decreases next, (if climbing { 1int } else { 0int }),
                            {
                                proof {
                                    lemma_last_child_place(d, self.root, next);
                                }
                                match dom.parent_node(next) {
                                    Some(parent) => {
                                        if parent == self.root {
                                            self.finished = true;
                                            climbing = false;
                                        } else {
                                            match dom.next_sibling(parent) {
                                                Some(aunt) => {
                                                    proof {
                                                        lemma_sibling_place(
                                                            d,
                                                            self.root,
                                                            parent,
                                                            aunt,
                                                        );
                                                    }
                                                    self.current = aunt;
                                                    climbing = false;
                                                },
                                                None => {
                                                    next = parent;
                                                },
                                            }
                                        }
                                    },
                                    None => {
                                        // A node under the root that is not
                                        // the root has a parent.
                                        self.finished = true;
                                        climbing = false;
                                    },
                                }
                            }
                        },
                    }
                }
            },
        }
        self.visited = Ghost((k + 1) as nat);
        Some(here)
    }
}

} // verus!
