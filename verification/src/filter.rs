//! A filter.

use vstd::prelude::*;

verus! {

/// A condition that rows must meet.
#[derive(Debug)]
pub struct LogicalFilterNode {
    pub condition: String,
}

impl LogicalFilterNode {
    /// A node with the given text.
    pub fn new(condition: &str) -> (node: Self)
        ensures
            node.condition@ == condition@,
    {
        Self { condition: condition.to_owned() }
    }
}

} // verus!
