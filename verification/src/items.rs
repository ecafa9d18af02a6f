//! The renderable projection of the topic tree: one item per node,
//! carrying the leaf name, a display meta value, a visibility flag
//! driven by the query filter, and the projected children in order.
//! The rendering layer decides how to draw these; it never touches
//! tree internals.

use vstd::prelude::*;

verus! {

/// What the display line says after the leaf name: the latest payload
/// when the node has history of its own, or aggregated counts of the
/// topics and messages below it.
pub enum Meta {
    /// The latest payload, as text.
    Text(String),
    /// The latest payload, a JSON document serialized to one line.
    Json(String),
    /// The latest payload was not valid UTF-8.
    NotUtf8,
    /// No direct history: (topics below, messages below).
    Counts(usize, usize),
}

/// One projected node of the topic tree.
pub struct TreeItemData {
    /// The final path segment of this node.
    pub leaf: String,
    /// The display meta value.
    pub meta: Meta,
    /// Whether the query filter keeps this node's own path.
    pub visible: bool,
    /// The projected children, in sorted leaf order.
    pub children: Vec<TreeItemData>,
}

impl TreeItemData {
    /// The projected child at `index`, when there is one.
    pub fn child(&self, index: usize) -> (r: Option<&TreeItemData>)
        ensures
            match r {
                Some(c) => index < self.children@.len() && *c == self.children@[index as int],
                None => index >= self.children@.len(),
            },
    {
        if index < self.children.len() {
            Some(&self.children[index])
        } else {
            None
        }
    }
}

} // verus!
