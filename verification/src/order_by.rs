//! An ordering.

use vstd::prelude::*;

verus! {

/// A field to order by.
#[derive(Debug)]
pub struct LogicalOrderByNode {
    pub field: String,
}

impl LogicalOrderByNode {
    /// A node with the given text.
    pub fn new(field: &str) -> (node: Self)
        ensures
            node.field@ == field@,
    {
        Self { field: field.to_owned() }
    }
}

} // verus!
