//! A single-file, page-oriented storage engine: slotted pages, a bounded
//! buffer pool with CLOCK replacement, and a record manager offering
//! append-only insertion and full scans.
//!
//! The engine never touches the backing file itself. Every operation that
//! needs the file says so in its result, and the caller performs the transfer.
//!
//! Beside the engine stands a small parser of pipe queries, which turns a
//! query into a logical plan and the plan into a list of operations.

pub mod errors;
pub mod filter;
pub mod join;
pub mod logical_plan;
pub mod order_by;
pub mod parser;
pub mod physical_plan;
pub mod record;
pub mod row;
pub mod scanner;
pub mod select;
pub mod storage;
pub mod table;
pub mod text;
