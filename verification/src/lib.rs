//! A virtual-tree reconciliation engine: snapshots of a UI tree are compared,
//! the differences become an address-ordered list of patches, and the patches
//! are applied to a live tree that is walked in the same pre-order.

pub mod apply;
pub mod attribute;
pub mod component;
pub mod diff;
pub mod diff_proofs;
pub mod dom;
pub mod dom_iterator;
pub mod events;
pub mod layout;
pub mod mirror;
pub mod node;
pub mod placement;
pub mod preorder;
pub mod reconcile;
pub mod replay;
pub mod root;
pub mod tree;

pub use crate::attribute::{Attr, AttrKind, AttrValue, Attribute};
pub use crate::component::{Callback, Component, Fault};
pub use crate::node::{Child, Node};
pub use crate::root::{create_element, render, Root};
