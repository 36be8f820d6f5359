//! The row that a page stores through its typed interface.

use vstd::prelude::*;

verus! {

/// A row of two columns.
#[derive(Debug, Clone, PartialEq)]
pub struct Row {
    pub name: String,
    pub age: u8,
}

/// The mathematical content of a row.
pub struct RowView {
    pub name: Seq<char>,
    pub age: u8,
}

impl View for Row {
    type V = RowView;

    open spec fn view(&self) -> RowView {
        RowView { name: self.name@, age: self.age }
    }
}

} // verus!
