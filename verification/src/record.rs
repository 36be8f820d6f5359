//! The record that the record manager stores.

use vstd::prelude::*;

verus! {

/// A fixed-schema record.
#[derive(Debug, Clone, PartialEq)]
pub struct Record {
    pub id: u32,
    pub name: String,
    pub age: u8,
}

/// The mathematical content of a record.
pub struct RecordView {
    pub id: u32,
    pub name: Seq<char>,
    pub age: u8,
}

impl View for Record {
    type V = RecordView;

    open spec fn view(&self) -> RecordView {
        RecordView { id: self.id, name: self.name@, age: self.age }
    }
}

} // verus!
