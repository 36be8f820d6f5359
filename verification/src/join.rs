//! A join.

use vstd::prelude::*;

verus! {

/// A join of the table read last with another table, on a condition.
#[derive(Debug)]
pub struct LogicalJoinNode {
    pub table1: String,
    pub table2: String,
    pub condition: String,
}

/// The mathematical content of a join.
pub struct JoinView {
    pub table1: Seq<char>,
    pub table2: Seq<char>,
    pub condition: Seq<char>,
}

impl View for LogicalJoinNode {
    type V = JoinView;

    open spec fn view(&self) -> JoinView {
        JoinView { table1: self.table1@, table2: self.table2@, condition: self.condition@ }
    }
}

impl LogicalJoinNode {
    /// A join of `table1` with `table2` on `condition`.
    pub fn new(table1: &str, table2: &str, condition: &str) -> (node: Self)
        ensures
            node@ == (JoinView { table1: table1@, table2: table2@, condition: condition@ }),
    {
        Self {
            table1: table1.to_owned(),
            table2: table2.to_owned(),
            condition: condition.to_owned(),
        }
    }
}

} // verus!
