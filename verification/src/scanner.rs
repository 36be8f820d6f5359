//! A table scan.

use vstd::prelude::*;

verus! {

/// A table to read.
#[derive(Debug)]
pub struct LogicalScanNode {
    pub table_name: String,
}

impl LogicalScanNode {
    /// A node with the given text.
    pub fn new(table_name: &str) -> (node: Self)
        ensures
            node.table_name@ == table_name@,
    {
        Self { table_name: table_name.to_owned() }
    }
}

} // verus!
