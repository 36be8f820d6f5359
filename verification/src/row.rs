//! A row with an identifier.

use vstd::prelude::*;

verus! {

/// A row of three columns.
#[derive(Debug, Clone, PartialEq)]
pub struct Row {
    pub id: u32,
    pub name: String,
    pub age: u8,
}

} // verus!
