//! An entry of a select list.

use vstd::prelude::*;

verus! {

/// A field to project.
#[derive(Debug)]
pub struct LogicalSelectListNode {
    pub field: String,
}

impl LogicalSelectListNode {
    /// A node with the given text.
    pub fn new(field: &str) -> (node: Self)
        ensures
            node.field@ == field@,
    {
        Self { field: field.to_owned() }
    }
}

} // verus!
