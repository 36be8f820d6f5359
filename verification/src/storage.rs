//! The storage core.

use vstd::prelude::*;

pub mod buffer_pool;
pub mod catalog;
pub mod encoding;
pub mod file_model;
pub mod guarantees;
pub mod page;
pub mod pager;
pub mod record_manager;
pub mod tuple;

verus! {

/// Size in bytes of every page, in memory and in the backing file.
pub const PAGE_SIZE: usize = 4096;

/// Why a storage operation could not be carried out.
#[derive(Debug, Clone, Copy, PartialEq, Eq, Structural)]
pub enum StorageError {
    /// The page has no room left for the record.
    NotEnoughSpace,
    /// The record does not fit even in an empty page.
    RecordTooLarge,
    /// The buffer pool is full and no page could be chosen for eviction.
    NoVictim,
    /// The page is not held by the buffer pool.
    NotResident,
    /// The page is already held by the buffer pool.
    AlreadyResident,
    /// The buffer pool has no free frame for the page.
    PoolFull,
    /// The page has not been allocated.
    NoSuchPage,
    /// The bytes are not the image of the page they were read for.
    CorruptPage,
    /// The stored bytes do not decode to a record.
    CorruptRecord,
    /// The range reaches past the end of the page.
    OutOfBounds,
    /// No further page identifier is available.
    PageLimit,
}

} // verus!
