//! The hierarchy component: parent, first child and sibling links.

use crate::entity::Entity;
use vstd::prelude::*;

verus! {

/// Tree links of one entity. The children of a parent form a doubly linked
/// list that starts at the parent's `first_child`.
#[derive(Clone, Copy, Debug, PartialEq, Eq, Structural)]
pub struct Node {
    /// The entity this one sits under; `None` for a root.
    pub parent: Option<Entity>,
    /// The head of this entity's child list.
    pub first_child: Option<Entity>,
    /// The entity after this one in its parent's child list.
    pub next_sibling: Option<Entity>,
    /// The entity before this one in its parent's child list.
    pub prev_sibling: Option<Entity>,
}

impl Node {
    /// A node with no links: a root without children.
    pub open spec fn unlinked() -> Node {
        Node { parent: None, first_child: None, next_sibling: None, prev_sibling: None }
    }

    /// A node with no links.
    pub fn new() -> (n: Node)
        ensures
            n == Node::unlinked(),
    {
        Node { parent: None, first_child: None, next_sibling: None, prev_sibling: None }
    }

    /// Whether this node has no parent.
    pub fn is_root(&self) -> (b: bool)
        ensures
            b == (self.parent is None),
    {
        self.parent.is_none()
    }
}

impl Default for Node {
    fn default() -> (n: Node)
        ensures
            n == Node::unlinked(),
    {
        Node::new()
    }
}

} // verus!
